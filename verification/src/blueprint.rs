//! Blueprint metadata: the declared values, upgrade hooks and exclusion
//! patterns that accompany a template tree, together with the per-project
//! configuration that records how a project was generated.

pub mod values;

pub use values::Values;

use vstd::prelude::*;

verus! {

/// One value a blueprint declares: its name, a description shown when
/// prompting for it, an optional default, and whether the user must supply
/// it.
pub struct ValueSpec {
    pub name: String,
    pub description: String,
    pub default: Option<String>,
    pub required: bool,
}

impl PartialEq for ValueSpec {
    /// Two declarations speak of the same value when they share a name.
    fn eq(&self, other: &Self) -> (r: bool) {
        crate::blueprint::values::str_eq(self.name.as_str(), other.name.as_str())
    }
}

impl vstd::std_specs::cmp::PartialEqSpecImpl for ValueSpec {
    open spec fn obeys_eq_spec() -> bool {
        true
    }

    open spec fn eq_spec(&self, other: &Self) -> bool {
        self.name@ == other.name@
    }
}

impl Eq for ValueSpec {

}

/// An upgrade hook: a script to run when upgrading a project to `version`.
pub struct UpgradeSpec {
    pub version: u32,
    pub script: String,
    pub executable: String,
}

/// The name/default pairs of the value declarations that carry a default.
pub open spec fn defaults_of(vs: Seq<ValueSpec>) -> Seq<(Seq<char>, Seq<char>)>
    decreases vs.len(),
{
    if vs.len() == 0 {
        Seq::empty()
    } else {
        (match vs[0].default {
            Some(d) => seq![(vs[0].name@, d@)],
            None => Seq::empty(),
        }) + defaults_of(vs.skip(1))
    }
}

/// The value declarations marked required, in order.
pub open spec fn required_of(vs: Seq<ValueSpec>) -> Seq<ValueSpec>
    decreases vs.len(),
{
    if vs.len() == 0 {
        Seq::empty()
    } else {
        (if vs[0].required {
            seq![vs[0]]
        } else {
            Seq::empty()
        }) + required_of(vs.skip(1))
    }
}

/// The upgrade hooks declared for `version`, in order.
pub open spec fn upgrades_for(us: Seq<UpgradeSpec>, version: u32) -> Seq<UpgradeSpec>
    decreases us.len(),
{
    if us.len() == 0 {
        Seq::empty()
    } else {
        (if us[0].version == version {
            seq![us[0]]
        } else {
            Seq::empty()
        }) + upgrades_for(us.skip(1), version)
    }
}

proof fn lemma_defaults_concat(a: Seq<ValueSpec>, b: Seq<ValueSpec>)
    ensures
        defaults_of(a + b) == defaults_of(a) + defaults_of(b),
    decreases a.len(),
{
    if a.len() == 0 {
        assert(a + b =~= b);
        assert(defaults_of(a) + defaults_of(b) =~= defaults_of(b));
    } else {
        assert((a + b)[0] == a[0]);
        assert((a + b).skip(1) =~= a.skip(1) + b);
        lemma_defaults_concat(a.skip(1), b);
        let h = match a[0].default {
            Some(d) => seq![(a[0].name@, d@)],
            None => Seq::<(Seq<char>, Seq<char>)>::empty(),
        };
        assert(h + (defaults_of(a.skip(1)) + defaults_of(b)) =~= (h + defaults_of(a.skip(1)))
            + defaults_of(b));
    }
}

proof fn lemma_required_concat(a: Seq<ValueSpec>, b: Seq<ValueSpec>)
    ensures
        required_of(a + b) == required_of(a) + required_of(b),
    decreases a.len(),
{
    if a.len() == 0 {
        assert(a + b =~= b);
        assert(required_of(a) + required_of(b) =~= required_of(b));
    } else {
        assert((a + b)[0] == a[0]);
        assert((a + b).skip(1) =~= a.skip(1) + b);
        lemma_required_concat(a.skip(1), b);
        let h = if a[0].required {
            seq![a[0]]
        } else {
            Seq::<ValueSpec>::empty()
        };
        assert(h + (required_of(a.skip(1)) + required_of(b)) =~= (h + required_of(a.skip(1)))
            + required_of(b));
    }
}

proof fn lemma_upgrades_concat(a: Seq<UpgradeSpec>, b: Seq<UpgradeSpec>, version: u32)
    ensures
        upgrades_for(a + b, version) == upgrades_for(a, version) + upgrades_for(b, version),
    decreases a.len(),
{
    if a.len() == 0 {
        assert(a + b =~= b);
        assert(upgrades_for(a, version) + upgrades_for(b, version) =~= upgrades_for(b, version));
    } else {
        assert((a + b)[0] == a[0]);
        assert((a + b).skip(1) =~= a.skip(1) + b);
        lemma_upgrades_concat(a.skip(1), b, version);
        let h = if a[0].version == version {
            seq![a[0]]
        } else {
            Seq::<UpgradeSpec>::empty()
        };
        assert(h + (upgrades_for(a.skip(1), version) + upgrades_for(b, version)) =~= (h
            + upgrades_for(a.skip(1), version)) + upgrades_for(b, version));
    }
}

proof fn lemma_defaults_one(v: ValueSpec)
    ensures
        defaults_of(seq![v]) == (match v.default {
            Some(d) => seq![(v.name@, d@)],
            None => Seq::<(Seq<char>, Seq<char>)>::empty(),
        }),
{
    let l = seq![v];
    assert(l[0] == v);
    assert(l.skip(1) =~= Seq::<ValueSpec>::empty());
    assert(defaults_of(l.skip(1)) == Seq::<(Seq<char>, Seq<char>)>::empty());
    match v.default {
        Some(d) => {
            assert(seq![(v.name@, d@)] + Seq::<(Seq<char>, Seq<char>)>::empty() =~= seq![
                (v.name@, d@),
            ]);
        },
        None => {
            assert(Seq::<(Seq<char>, Seq<char>)>::empty() + Seq::<
                (Seq<char>, Seq<char>),
            >::empty() =~= Seq::<(Seq<char>, Seq<char>)>::empty());
        },
    }
}

proof fn lemma_required_one(v: ValueSpec)
    ensures
        required_of(seq![v]) == (if v.required {
            seq![v]
        } else {
            Seq::<ValueSpec>::empty()
        }),
{
    let l = seq![v];
    assert(l[0] == v);
    assert(l.skip(1) =~= Seq::<ValueSpec>::empty());
    assert(required_of(l.skip(1)) == Seq::<ValueSpec>::empty());
    if v.required {
        assert(seq![v] + Seq::<ValueSpec>::empty() =~= seq![v]);
    } else {
        assert(Seq::<ValueSpec>::empty() + Seq::<ValueSpec>::empty() =~= Seq::<
            ValueSpec,
        >::empty());
    }
}

proof fn lemma_upgrades_one(u: UpgradeSpec, version: u32)
    ensures
        upgrades_for(seq![u], version) == (if u.version == version {
            seq![u]
        } else {
            Seq::<UpgradeSpec>::empty()
        }),
{
    let l = seq![u];
    assert(l[0] == u);
    assert(l.skip(1) =~= Seq::<UpgradeSpec>::empty());
    assert(upgrades_for(l.skip(1), version) == Seq::<UpgradeSpec>::empty());
    if u.version == version {
        assert(seq![u] + Seq::<UpgradeSpec>::empty() =~= seq![u]);
    } else {
        assert(Seq::<UpgradeSpec>::empty() + Seq::<UpgradeSpec>::empty() =~= Seq::<
            UpgradeSpec,
        >::empty());
    }
}

/// Whether a path matches a glob pattern, as the `glob` crate decides it;
/// an invalid pattern matches nothing.
pub uninterp spec fn glob_match(pattern: Seq<char>, path: Seq<char>) -> bool;

/// Relies on `glob::Pattern::new` and `glob::Pattern::matches`: whether a
/// path matches a glob pattern is a pure function of the two strings.  An
/// invalid pattern is treated as matching nothing.
#[verifier::external_body]
fn glob_matches(pattern: &str, path: &str) -> (r: bool)
    ensures
        r == glob_match(pattern@, path@),
{
    match glob::Pattern::new(pattern) {
        Ok(p) => p.matches(path),
        Err(_) => false,
    }
}

/// The metadata a blueprint declares: identity, the values it takes, which
/// files are copied without templating, and its upgrade hooks.
pub struct BlueprintMetadata {
    pub name: String,
    pub version: u32,
    pub author: String,
    pub description: String,
    pub editable_templates: bool,
    pub values: Vec<ValueSpec>,
    pub exclusions: Vec<String>,
    pub git_init: bool,
    pub upgrades: Vec<UpgradeSpec>,
}

impl BlueprintMetadata {
    /// The declared values.
    pub fn values(&self) -> (r: &Vec<ValueSpec>)
        ensures
            r@ == self.values@,
    {
        &self.values
    }

    /// Whether a fresh project should be initialised as a git repository.
    pub fn is_git_init_enabled(&self) -> (r: bool)
        ensures
            r == self.git_init,
    {
        self.git_init
    }

    /// The name/default pairs of every declared value that has a default,
    /// in declaration order.
    pub fn default_values(&self) -> (r: Vec<(&str, &str)>)
        ensures
            r@.len() == defaults_of(self.values@).len(),
            forall|i: int|
                0 <= i < r@.len() ==> r@[i].0@ == defaults_of(self.values@)[i].0 && r@[i].1@
                    == defaults_of(self.values@)[i].1,
    {
        let ghost vs = self.values@;
        let mut r: Vec<(&str, &str)> = Vec::new();
        proof {
            assert(vs.take(0) =~= Seq::<ValueSpec>::empty());
        }
        let mut i: usize = 0;
        while i < self.values.len()
            invariant
                0 <= i <= vs.len(),
                vs == self.values@,
                r@.len() == defaults_of(vs.take(i as int)).len(),
                forall|j: int|
                    0 <= j < r@.len() ==> r@[j].0@ == defaults_of(vs.take(i as int))[j].0
                        && r@[j].1@ == defaults_of(vs.take(i as int))[j].1,
            decreases vs.len() - i,
        {
            let ghost pre = vs.take(i as int);
            match &self.values[i].default {
                Some(d) => {
                    r.push((self.values[i].name.as_str(), d.as_str()));
                },
                None => {
                },
            }
            proof {
                assert(vs.take(i + 1) =~= pre + seq![vs[i as int]]);
                lemma_defaults_concat(pre, seq![vs[i as int]]);
                lemma_defaults_one(vs[i as int]);
            }
            i = i + 1;
        }
        proof {
            assert(vs.take(vs.len() as int) =~= vs);
        }
        r
    }

    /// The declared values the user must supply, in declaration order.
    pub fn required_values(&self) -> (r: Vec<&ValueSpec>)
        ensures
            r@.len() == required_of(self.values@).len(),
            forall|i: int| 0 <= i < r@.len() ==> *r@[i] == required_of(self.values@)[i],
    {
        let ghost vs = self.values@;
        let mut r: Vec<&ValueSpec> = Vec::new();
        proof {
            assert(vs.take(0) =~= Seq::<ValueSpec>::empty());
        }
        let mut i: usize = 0;
        while i < self.values.len()
            invariant
                0 <= i <= vs.len(),
                vs == self.values@,
                r@.len() == required_of(vs.take(i as int)).len(),
                forall|j: int| 0 <= j < r@.len() ==> *r@[j] == required_of(vs.take(i as int))[j],
            decreases vs.len() - i,
        {
            let ghost pre = vs.take(i as int);
            if self.values[i].required {
                r.push(&self.values[i]);
            }
            proof {
                assert(vs.take(i + 1) =~= pre + seq![vs[i as int]]);
                lemma_required_concat(pre, seq![vs[i as int]]);
                lemma_required_one(vs[i as int]);
            }
            i = i + 1;
        }
        proof {
            assert(vs.take(vs.len() as int) =~= vs);
        }
        r
    }

    /// The upgrade hooks declared for this metadata's own version, in
    /// declaration order.
    pub fn get_upgrade_scripts(&self) -> (r: Vec<&UpgradeSpec>)
        ensures
            r@.len() == upgrades_for(self.upgrades@, self.version).len(),
            forall|i: int|
                0 <= i < r@.len() ==> *r@[i] == upgrades_for(self.upgrades@, self.version)[i],
    {
        let ghost us = self.upgrades@;
        let v = self.version;
        let mut r: Vec<&UpgradeSpec> = Vec::new();
        proof {
            assert(us.take(0) =~= Seq::<UpgradeSpec>::empty());
        }
        let mut i: usize = 0;
        while i < self.upgrades.len()
            invariant
                0 <= i <= us.len(),
                us == self.upgrades@,
                v == self.version,
                r@.len() == upgrades_for(us.take(i as int), v).len(),
                forall|j: int|
                    0 <= j < r@.len() ==> *r@[j] == upgrades_for(us.take(i as int), v)[j],
            decreases us.len() - i,
        {
            let ghost pre = us.take(i as int);
            if self.upgrades[i].version == v {
                r.push(&self.upgrades[i]);
            }
            proof {
                assert(us.take(i + 1) =~= pre + seq![us[i as int]]);
                lemma_upgrades_concat(pre, seq![us[i as int]], v);
                lemma_upgrades_one(us[i as int], v);
            }
            i = i + 1;
        }
        proof {
            assert(us.take(us.len() as int) =~= us);
        }
        r
    }

    /// Whether some exclusion pattern of this blueprint matches `file`:
    /// such files are copied verbatim, never templated.
    pub fn is_excluded(&self, file: &str) -> (r: bool)
        ensures
            r == exists|i: int|
                0 <= i < self.exclusions@.len() && glob_match(
                    #[trigger] self.exclusions@[i]@,
                    file@,
                ),
    {
        let mut i: usize = 0;
        while i < self.exclusions.len()
            invariant
                0 <= i <= self.exclusions@.len(),
                forall|j: int| 0 <= j < i ==> !glob_match(#[trigger] self.exclusions@[j]@, file@),
            decreases self.exclusions@.len() - i,
        {
            if glob_matches(self.exclusions[i].as_str(), file) {
                return true;
            }
            i = i + 1;
        }
        false
    }
}

/// The credentials used to fetch a remote blueprint.
#[derive(Clone, Debug)]
pub struct BlueprintAuth {
    pub user: Option<String>,
    pub password: Option<String>,
    pub ssh_key: Option<String>,
}

impl BlueprintAuth {
    pub fn new(user: Option<String>, password: Option<String>, ssh_key: Option<String>) -> (r:
        BlueprintAuth)
        ensures
            r.user == user,
            r.password == password,
            r.ssh_key == ssh_key,
    {
        BlueprintAuth { user, password, ssh_key }
    }
}

/// A script shipped with a blueprint, to be run in a rendered project.
pub struct Script {
    pub executable: Option<String>,
    pub name: String,
    pub path: String,
}

impl Script {
    pub fn new(name: &str, path: String) -> (r: Script)
        ensures
            r.executable is None,
            r.name@ == name@,
            r.path == path,
    {
        Script { executable: None, name: name.to_owned(), path }
    }
}

/// A script that exited unsuccessfully: its exit status, if it exited at
/// all, and what it printed to stderr.
pub struct ScriptError {
    pub status: Option<i32>,
    pub msg: String,
}

impl ScriptError {
    pub fn new(status: Option<i32>, msg: String) -> (r: ScriptError)
        ensures
            r.status == status,
            r.msg == msg,
    {
        ScriptError { status, msg }
    }
}

/// The per-project record of how a project was generated: blueprint
/// identity, source locator, and the values used.  Persisted by the
/// orchestration layer in the project's configuration file.
pub struct RendrConfig {
    pub name: String,
    pub version: u32,
    pub author: String,
    pub description: String,
    pub source: String,
    pub values: Values,
}

impl View for RendrConfig {
    type V = Map<Seq<char>, Seq<char>>;

    open spec fn view(&self) -> Map<Seq<char>, Seq<char>> {
        self.values@
    }
}

impl RendrConfig {
    /// Records a generation: the blueprint's identity from its metadata,
    /// the source it came from, and the values it was rendered with.
    pub fn new(source: String, metadata: &BlueprintMetadata, values: Values) -> (r: RendrConfig)
        ensures
            r.name@ == metadata.name@,
            r.version == metadata.version,
            r.author@ == metadata.author@,
            r.description@ == metadata.description@,
            r.source == source,
            r@ == values@,
    {
        RendrConfig {
            name: metadata.name.clone(),
            version: metadata.version,
            author: metadata.author.clone(),
            description: metadata.description.clone(),
            source,
            values,
        }
    }

    /// The values the project was generated with.
    pub fn values(&self) -> (r: &Values)
        ensures
            r@ == self@,
    {
        &self.values
    }
}

} // verus!
