//! The mapping from variable names to the string values used when rendering,
//! validating or upgrading templates.

use vstd::prelude::*;
use vstd::string::*;

verus! {

/// The mathematical content of a sequence of key/value pairs: a map in which
/// a later pair wins over an earlier one with the same key.
pub open spec fn pairs_map(ps: Seq<(String, String)>) -> Map<Seq<char>, Seq<char>>
    decreases ps.len(),
{
    if ps.len() == 0 {
        Map::empty()
    } else {
        pairs_map(ps.take(ps.len() - 1)).insert(ps.last().0@, ps.last().1@)
    }
}

/// No two pairs share a key.
pub open spec fn keys_unique(ps: Seq<(String, String)>) -> bool {
    forall|i: int, j: int|
        0 <= i < ps.len() && 0 <= j < ps.len() && i != j ==> ps[i].0@ != ps[j].0@
}

/// A mapping from variable names to string values.  Keys are unique; the
/// abstract content is a `Map<Seq<char>, Seq<char>>`.
#[derive(Debug)]
pub struct Values {
    inner: Vec<(String, String)>,
}

impl Clone for Values {
    /// A clone binds the same names to the same values.
    fn clone(&self) -> (r: Values)
        ensures
            r@ == self@,
    {
        proof {
            use_type_invariant(&*self);
        }
        let mut inner: Vec<(String, String)> = Vec::new();
        let mut i: usize = 0;
        while i < self.inner.len()
            invariant
                0 <= i <= self.inner@.len(),
                inner@.len() == i,
                forall|j: int| 0 <= j < i ==> inner@[j] == self.inner@[j],
            decreases self.inner@.len() - i,
        {
            inner.push((self.inner[i].0.clone(), self.inner[i].1.clone()));
            i = i + 1;
        }
        proof {
            assert(inner@ =~= self.inner@);
        }
        Values { inner }
    }
}

impl View for Values {
    type V = Map<Seq<char>, Seq<char>>;

    closed spec fn view(&self) -> Map<Seq<char>, Seq<char>> {
        pairs_map(self.inner@)
    }
}

pub proof fn lemma_pairs_map_dom(ps: Seq<(String, String)>, k: Seq<char>)
    ensures
        pairs_map(ps).dom().contains(k) <==> exists|i: int| 0 <= i < ps.len() && ps[i].0@ == k,
    decreases ps.len(),
{
    if ps.len() > 0 {
        lemma_pairs_map_dom(ps.take(ps.len() - 1), k);
        if ps.last().0@ == k {
            assert(ps[ps.len() - 1].0@ == k);
        } else {
            if pairs_map(ps).dom().contains(k) {
                let i = choose|i: int|
                    0 <= i < ps.len() - 1 && #[trigger] ps.take(ps.len() - 1)[i].0@ == k;
                assert(ps[i].0@ == k);
            }
            if exists|i: int| 0 <= i < ps.len() && ps[i].0@ == k {
                let i = choose|i: int| 0 <= i < ps.len() && ps[i].0@ == k;
                assert(i < ps.len() - 1);
                assert(ps.take(ps.len() - 1)[i].0@ == k);
            }
        }
    }
}

pub proof fn lemma_pairs_map_val(ps: Seq<(String, String)>, k: Seq<char>, i: int)
    requires
        0 <= i < ps.len(),
        ps[i].0@ == k,
        forall|j: int| 0 <= j < ps.len() && j != i ==> ps[j].0@ != k,
    ensures
        pairs_map(ps).dom().contains(k),
        pairs_map(ps)[k] == ps[i].1@,
    decreases ps.len(),
{
    if i == ps.len() - 1 {
    } else {
        assert(ps.last().0@ != k);
        assert(ps.take(ps.len() - 1)[i] == ps[i]);
        assert(forall|j: int|
            0 <= j < ps.len() - 1 && j != i ==> #[trigger] ps.take(ps.len() - 1)[j].0@ != k);
        lemma_pairs_map_val(ps.take(ps.len() - 1), k, i);
    }
}

impl Values {
    #[verifier::type_invariant]
    spec fn inv(self) -> bool {
        keys_unique(self.inner@)
    }

    /// The name/value pairs as abstract sequences, in storage order.
    pub closed spec fn pairs(&self) -> Seq<(Seq<char>, Seq<char>)> {
        self.inner@.map_values(|p: (String, String)| (p.0@, p.1@))
    }

    /// An empty mapping.
    pub fn new() -> (r: Values)
        ensures
            r@ == Map::<Seq<char>, Seq<char>>::empty(),
    {
        Values { inner: Vec::new() }
    }

    /// The index of the pair whose key is `key`, if any.
    fn find_key(&self, key: &str) -> (r: Option<usize>)
        ensures
            match r {
                Some(i) => i < self.inner@.len() && self.inner@[i as int].0@ == key@,
                None => forall|j: int| 0 <= j < self.inner@.len() ==> self.inner@[j].0@ != key@,
            },
    {
        let mut i: usize = 0;
        while i < self.inner.len()
            invariant
                0 <= i <= self.inner.len(),
                forall|j: int| 0 <= j < i ==> self.inner@[j].0@ != key@,
            decreases self.inner.len() - i,
        {
            if str_eq(self.inner[i].0.as_str(), key) {
                return Some(i);
            }
            i = i + 1;
        }
        None
    }

    /// Binds `key` to `value`, replacing any earlier binding of `key`.
    pub fn insert(&mut self, key: &str, value: &str)
        ensures
            final(self)@ == old(self)@.insert(key@, value@),
    {
        proof {
            use_type_invariant(&*self);
        }
        let ghost os = self.inner@;
        match self.find_key(key) {
            Some(i) => {
                let mut out: Vec<(String, String)> = Vec::new();
                let mut j: usize = 0;
                while j < self.inner.len()
                    invariant
                        0 <= j <= self.inner.len(),
                        self.inner@ == os,
                        i < os.len(),
                        os[i as int].0@ == key@,
                        out@.len() == j,
                        forall|m: int|
                            0 <= m < j ==> out@[m].0@ == os[m].0@ && out@[m].1@ == (if m
                                == i as int {
                                value@
                            } else {
                                os[m].1@
                            }),
                    decreases self.inner.len() - j,
                {
                    if j == i {
                        out.push((key.to_owned(), value.to_owned()));
                    } else {
                        out.push((self.inner[j].0.clone(), self.inner[j].1.clone()));
                    }
                    j = j + 1;
                }
                proof {
                    let ns = out@;
                    assert(forall|m: int| 0 <= m < ns.len() ==> ns[m].0@ == os[m].0@);
                }
                self.inner = out;
                proof {
                    let ns = self.inner@;
                    let target = pairs_map(os).insert(key@, value@);
                    assert forall|k2: Seq<char>|
                        pairs_map(ns).dom().contains(k2) == target.dom().contains(k2) by {
                        lemma_pairs_map_dom(ns, k2);
                        lemma_pairs_map_dom(os, k2);
                    }
                    assert forall|k2: Seq<char>| pairs_map(ns).dom().contains(k2) implies pairs_map(
                        ns,
                    )[k2] == target[k2] by {
                        lemma_pairs_map_dom(ns, k2);
                        let m = choose|m: int| 0 <= m < ns.len() && ns[m].0@ == k2;
                        if k2 == key@ {
                            lemma_pairs_map_val(ns, k2, i as int);
                        } else {
                            lemma_pairs_map_val(ns, k2, m);
                            lemma_pairs_map_val(os, k2, m);
                        }
                    }
                    assert(pairs_map(ns) =~= target);
                }
            },
            None => {
                let mut out: Vec<(String, String)> = Vec::new();
                let mut j: usize = 0;
                while j < self.inner.len()
                    invariant
                        0 <= j <= self.inner.len(),
                        self.inner@ == os,
                        out@.len() == j,
                        forall|m: int| 0 <= m < j ==> out@[m] == os[m],
                    decreases self.inner.len() - j,
                {
                    out.push((self.inner[j].0.clone(), self.inner[j].1.clone()));
                    j = j + 1;
                }
                out.push((key.to_owned(), value.to_owned()));
                proof {
                    assert(out@.take(out@.len() - 1) =~= os);
                    assert(forall|m: int| 0 <= m < os.len() ==> out@[m] == os[m]);
                    assert forall|a: int, b: int|
                        0 <= a < out@.len() && 0 <= b < out@.len() && a != b implies out@[a].0@
                        != out@[b].0@ by {
                        assert(a < os.len() ==> out@[a] == os[a]);
                        assert(b < os.len() ==> out@[b] == os[b]);
                    }
                }
                self.inner = out;
                proof {
                    assert(pairs_map(self.inner@) == pairs_map(os).insert(key@, value@));
                }
            },
        }
    }

    /// Looks a name up, returning the bound value if there is one.
    pub fn get(&self, key: &str) -> (r: Option<&String>)
        ensures
            match r {
                Some(v) => self@.dom().contains(key@) && v@ == self@[key@],
                None => !self@.dom().contains(key@),
            },
    {
        proof {
            use_type_invariant(&*self);
        }
        match self.find_key(key) {
            Some(i) => {
                proof {
                    lemma_pairs_map_val(self.inner@, key@, i as int);
                }
                Some(&self.inner[i].1)
            },
            None => {
                proof {
                    lemma_pairs_map_dom(self.inner@, key@);
                }
                None
            },
        }
    }

    /// The underlying name/value pairs: each binding exactly once, in
    /// storage order.
    pub fn map(&self) -> (r: &Vec<(String, String)>)
        ensures
            pairs_map(r@) == self@,
            keys_unique(r@),
            r@.len() == self.pairs().len(),
            forall|i: int|
                0 <= i < r@.len() ==> r@[i].0@ == self.pairs()[i].0 && r@[i].1@
                    == self.pairs()[i].1,
    {
        proof {
            use_type_invariant(&*self);
        }
        &self.inner
    }

    /// The name/value pairs as borrowed strings: each binding exactly once,
    /// in storage order.
    pub fn iter(&self) -> (r: Vec<(&str, &str)>)
        ensures
            r@.len() == self.pairs().len(),
            forall|i: int|
                0 <= i < r@.len() ==> r@[i].0@ == self.pairs()[i].0 && r@[i].1@
                    == self.pairs()[i].1,
            forall|i: int, j: int|
                0 <= i < r@.len() && 0 <= j < r@.len() && i != j ==> r@[i].0@ != r@[j].0@,
            pairs_map_str(r@) == self@,
    {
        proof {
            use_type_invariant(&*self);
        }
        let mut r: Vec<(&str, &str)> = Vec::new();
        let mut i: usize = 0;
        while i < self.inner.len()
            invariant
                0 <= i <= self.inner.len(),
                r@.len() == i,
                forall|j: int|
                    0 <= j < i ==> r@[j].0@ == self.inner@[j].0@ && r@[j].1@
                        == self.inner@[j].1@,
            decreases self.inner.len() - i,
        {
            r.push((self.inner[i].0.as_str(), self.inner[i].1.as_str()));
            i = i + 1;
        }
        proof {
            lemma_pairs_map_str_agrees(r@, self.inner@);
        }
        r
    }

    /// The name/value pairs as borrowed strings: each binding exactly once,
    /// in storage order.
    pub fn map_str(&self) -> (r: Vec<(&str, &str)>)
        ensures
            r@.len() == self.pairs().len(),
            forall|i: int|
                0 <= i < r@.len() ==> r@[i].0@ == self.pairs()[i].0 && r@[i].1@
                    == self.pairs()[i].1,
            forall|i: int, j: int|
                0 <= i < r@.len() && 0 <= j < r@.len() && i != j ==> r@[i].0@ != r@[j].0@,
            pairs_map_str(r@) == self@,
    {
        self.iter()
    }
}

/// The map content of a sequence of borrowed pairs; mirrors `pairs_map`.
pub open spec fn pairs_map_str(ps: Seq<(&str, &str)>) -> Map<Seq<char>, Seq<char>>
    decreases ps.len(),
{
    if ps.len() == 0 {
        Map::empty()
    } else {
        pairs_map_str(ps.take(ps.len() - 1)).insert(ps.last().0@, ps.last().1@)
    }
}

proof fn lemma_pairs_map_str_agrees(rs: Seq<(&str, &str)>, ps: Seq<(String, String)>)
    requires
        rs.len() == ps.len(),
        forall|i: int| 0 <= i < rs.len() ==> rs[i].0@ == ps[i].0@ && rs[i].1@ == ps[i].1@,
    ensures
        pairs_map_str(rs) == pairs_map(ps),
    decreases rs.len(),
{
    if rs.len() > 0 {
        assert(forall|i: int|
            0 <= i < rs.len() - 1 ==> rs.take(rs.len() - 1)[i] == rs[i] && ps.take(
                ps.len() - 1,
            )[i] == ps[i]);
        lemma_pairs_map_str_agrees(rs.take(rs.len() - 1), ps.take(ps.len() - 1));
        assert(pairs_map_str(rs) =~= pairs_map(ps));
    }
}

/// Compares two string slices character by character.
pub fn str_eq(a: &str, b: &str) -> (r: bool)
    ensures
        r == (a@ == b@),
{
    let na = a.unicode_len();
    let nb = b.unicode_len();
    if na != nb {
        return false;
    }
    let mut i: usize = 0;
    while i < na
        invariant
            0 <= i <= na,
            na == a@.len(),
            na == b@.len(),
            forall|j: int| 0 <= j < i ==> a@[j] == b@[j],
        decreases na - i,
    {
        if a.get_char(i) != b.get_char(i) {
            return false;
        }
        i = i + 1;
    }
    proof {
        assert(a@ =~= b@);
    }
    true
}

/// The index of the first occurrence of `c` at or after `i`, or the length
/// of `s` if there is none.
pub open spec fn find_char(s: Seq<char>, i: int, c: char) -> int
    decreases s.len() - i when 0 <= i <= s.len()
{
    if i >= s.len() {
        s.len() as int
    } else if s[i] == c {
        i
    } else {
        find_char(s, i + 1, c)
    }
}

/// Splits `name:value` at the first colon.  Anything before the first colon
/// is the name; everything after it is the value.  A string without a colon
/// is rejected with a message naming it.
pub fn parse_value(s: &str) -> (r: Result<(&str, &str), String>)
    ensures
        match r {
            Ok((k, v)) => {
                let p = find_char(s@, 0, ':');
                &&& exists|i: int| 0 <= i < s@.len() && s@[i] == ':'
                &&& k@ == s@.take(p)
                &&& v@ == s@.skip(p + 1)
            },
            Err(e) => {
                &&& !(exists|i: int| 0 <= i < s@.len() && s@[i] == ':')
                &&& e@ == "Invalid value `"@ + s@ + "`"@
            },
        },
{
    let n = s.unicode_len();
    let mut i: usize = 0;
    while i < n
        invariant
            0 <= i <= n,
            n == s@.len(),
            forall|j: int| 0 <= j < i ==> s@[j] != ':',
            find_char(s@, 0, ':') == find_char(s@, i as int, ':'),
        decreases n - i,
    {
        if s.get_char(i) == ':' {
            let k = s.substring_char(0, i);
            let v = s.substring_char(i + 1, n);
            proof {
                assert(find_char(s@, i as int, ':') == i);
                assert(k@ == s@.take(i as int));
                assert(v@ =~= s@.skip(i + 1));
            }
            return Ok((k, v));
        }
        proof {
            assert(find_char(s@, i as int, ':') == find_char(s@, i + 1, ':'));
        }
        i = i + 1;
    }
    let mut msg = String::new();
    msg.append("Invalid value `");
    msg.append(s);
    msg.append("`");
    proof {
        assert(msg@ =~= "Invalid value `"@ + s@ + "`"@);
    }
    Err(msg)
}

} // verus!
