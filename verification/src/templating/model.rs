//! The mathematical model of the `tmplpp` template language: an abstract
//! syntax of scaffold text, variable references and editable regions, the
//! grammar that produces it, and the meaning of rendering, validating and
//! upgrading, all as specification functions over sequences of characters.

use vstd::prelude::*;

verus! {

/// A mapping from variable names to values, as abstract sequences.
pub type Vals = Map<Seq<char>, Seq<char>>;

/// An element allowed inside an editable region: scaffold text or a
/// variable reference.
pub enum Piece {
    Raw(Seq<char>),
    Var(Seq<char>),
}

/// A top-level template element: scaffold text, a variable reference, or a
/// named editable region.  Editable regions cannot nest: their body is a
/// sequence of `Piece`s.
pub enum Node {
    Raw(Seq<char>),
    Edit(Seq<char>, Seq<Piece>),
    Var(Seq<char>),
}

/// The value a variable reference produces: the bound value, or the empty
/// string when the name is unbound.
pub open spec fn lookup(vals: Vals, name: Seq<char>) -> Seq<char> {
    if vals.dom().contains(name) {
        vals[name]
    } else {
        Seq::empty()
    }
}

pub open spec fn render_piece(p: Piece, vals: Vals) -> Seq<char> {
    match p {
        Piece::Raw(t) => t,
        Piece::Var(n) => lookup(vals, n),
    }
}

pub open spec fn render_pieces(ps: Seq<Piece>, vals: Vals) -> Seq<char>
    decreases ps.len(),
{
    if ps.len() == 0 {
        Seq::empty()
    } else {
        render_piece(ps[0], vals) + render_pieces(ps.skip(1), vals)
    }
}

pub open spec fn render_node(n: Node, vals: Vals) -> Seq<char> {
    match n {
        Node::Raw(t) => t,
        Node::Var(nm) => lookup(vals, nm),
        Node::Edit(_, ps) => render_pieces(ps, vals),
    }
}

/// What rendering a template against `vals` produces: each element's
/// rendering, concatenated in source order.
pub open spec fn render_nodes(ns: Seq<Node>, vals: Vals) -> Seq<char>
    decreases ns.len(),
{
    if ns.len() == 0 {
        Seq::empty()
    } else {
        render_node(ns[0], vals) + render_nodes(ns.skip(1), vals)
    }
}

/// The literal text a non-editable element pins down in an output.
pub open spec fn node_literal(n: Node, vals: Vals) -> Seq<char> {
    match n {
        Node::Raw(t) => t,
        Node::Var(nm) => lookup(vals, nm),
        Node::Edit(_, _) => Seq::empty(),
    }
}

/// Whether `out` is consistent with the template `ns` under `vals`: scaffold
/// text and substituted variable values must appear verbatim, in order, over
/// the whole of `out`, while each editable region may hold any text at all.
pub open spec fn matches_tail(ns: Seq<Node>, vals: Vals, out: Seq<char>) -> bool
    decreases ns.len(),
{
    if ns.len() == 0 {
        out.len() == 0
    } else {
        match ns[0] {
            Node::Edit(_, _) => exists|k: int|
                0 <= k <= out.len() && matches_tail(ns.skip(1), vals, out.skip(k)),
            _ => {
                let lit = node_literal(ns[0], vals);
                &&& lit.len() <= out.len()
                &&& out.take(lit.len() as int) == lit
                &&& matches_tail(ns.skip(1), vals, out.skip(lit.len() as int))
            },
        }
    }
}

/// Whether the whole of `out` matches the template `ns` under `vals`.
pub open spec fn output_matches(ns: Seq<Node>, vals: Vals, out: Seq<char>) -> bool {
    matches_tail(ns, vals, out)
}

/// The largest `k <= bound` such that the tail `ns` matches `out` with its
/// first `k` characters removed, or `-1` if there is none: the span a
/// greedy editable region takes.
pub open spec fn greedy_k(ns: Seq<Node>, vals: Vals, out: Seq<char>, bound: int) -> int
    decreases bound when bound >= 0
{
    if matches_tail(ns, vals, out.skip(bound)) {
        bound
    } else if bound <= 0 {
        -1
    } else {
        greedy_k(ns, vals, out, bound - 1)
    }
}

/// The text each editable region captures when `out` is matched greedily
/// against `ns`, in region order.  Meaningful when `out` matches `ns`.
pub open spec fn caps_list(ns: Seq<Node>, vals: Vals, out: Seq<char>) -> Seq<
    (Seq<char>, Seq<char>),
>
    decreases ns.len(),
{
    if ns.len() == 0 {
        Seq::empty()
    } else {
        match ns[0] {
            Node::Edit(name, _) => {
                let k = greedy_k(ns.skip(1), vals, out, out.len() as int);
                seq![(name, out.take(k))] + caps_list(ns.skip(1), vals, out.skip(k))
            },
            _ => {
                let lit = node_literal(ns[0], vals);
                caps_list(ns.skip(1), vals, out.skip(lit.len() as int))
            },
        }
    }
}

/// A name/capture list as a map; an earlier entry wins over a later one
/// with the same name.
pub open spec fn list_to_map(l: Seq<(Seq<char>, Seq<char>)>) -> Map<Seq<char>, Seq<char>>
    decreases l.len(),
{
    if l.len() == 0 {
        Map::empty()
    } else {
        list_to_map(l.skip(1)).insert(l[0].0, l[0].1)
    }
}

/// The capture set of a greedy match of `out` against `ns`, keyed by
/// editable-region name.
pub open spec fn captures(ns: Seq<Node>, vals: Vals, out: Seq<char>) -> Map<Seq<char>, Seq<char>> {
    list_to_map(caps_list(ns, vals, out))
}

/// The names of the editable regions of a template.
pub open spec fn edit_names(ns: Seq<Node>) -> Set<Seq<char>>
    decreases ns.len(),
{
    if ns.len() == 0 {
        Set::empty()
    } else {
        match ns[0] {
            Node::Edit(name, _) => edit_names(ns.skip(1)).insert(name),
            _ => edit_names(ns.skip(1)),
        }
    }
}

/// Whether no two editable regions share a name.
pub open spec fn unique_names(ns: Seq<Node>) -> bool
    decreases ns.len(),
{
    if ns.len() == 0 {
        true
    } else {
        match ns[0] {
            Node::Edit(name, _) => !edit_names(ns.skip(1)).contains(name) && unique_names(
                ns.skip(1),
            ),
            _ => unique_names(ns.skip(1)),
        }
    }
}

/// The output assembled from a template and a capture set: scaffold text and
/// variable values as rendering would produce them, and for each editable
/// region the captured text for its name (empty if the name is unknown).
pub open spec fn rebuild(ns: Seq<Node>, vals: Vals, caps: Map<Seq<char>, Seq<char>>) -> Seq<char>
    decreases ns.len(),
{
    if ns.len() == 0 {
        Seq::empty()
    } else {
        match ns[0] {
            Node::Edit(name, _) => (if caps.dom().contains(name) {
                caps[name]
            } else {
                Seq::empty()
            }) + rebuild(ns.skip(1), vals, caps),
            _ => node_literal(ns[0], vals) + rebuild(ns.skip(1), vals, caps),
        }
    }
}

/// What upgrading produces when `out` matches the old template: the new
/// template's scaffold and freshly substituted variables, with each editable
/// region carrying the text captured from `out` under the old template.
pub open spec fn upgrade_result(
    old_ns: Seq<Node>,
    new_ns: Seq<Node>,
    vals: Vals,
    out: Seq<char>,
) -> Seq<char> {
    rebuild(new_ns, vals, captures(old_ns, vals, out))
}

/// The total length of the fixed text a template pins down under `vals`:
/// its scaffold runs and substituted values, with editable regions
/// contributing nothing.
pub open spec fn scaffold_len(ns: Seq<Node>, vals: Vals) -> int
    decreases ns.len(),
{
    if ns.len() == 0 {
        0
    } else {
        node_literal(ns[0], vals).len() + scaffold_len(ns.skip(1), vals)
    }
}

/// Whether `t` occurs somewhere in `out` as a contiguous run.
pub open spec fn occurs_in(out: Seq<char>, t: Seq<char>) -> bool {
    exists|p: int|
        0 <= p && p + t.len() <= out.len() && #[trigger] out.subrange(p, p + t.len() as int) == t
}

/// The name of the first editable region of `ns` that `names` does not
/// cover, when there is one.
pub open spec fn first_unknown_name(ns: Seq<Node>, names: Set<Seq<char>>) -> Seq<char>
    decreases ns.len(),
{
    if ns.len() == 0 {
        Seq::empty()
    } else {
        match ns[0] {
            Node::Edit(name, _) => if !names.contains(name) {
                name
            } else {
                first_unknown_name(ns.skip(1), names)
            },
            _ => first_unknown_name(ns.skip(1), names),
        }
    }
}

// ------------------------------------------------------------------
// The grammar.
// ------------------------------------------------------------------
/// Whitespace as it may surround a name inside a tag.
pub open spec fn is_ws(c: char) -> bool {
    c == ' ' || c == '\t' || c == '\r' || c == '\n'
}

pub open spec fn is_ident_start(c: char) -> bool {
    ('a' <= c && c <= 'z') || ('A' <= c && c <= 'Z') || c == '_'
}

pub open spec fn is_ident_char(c: char) -> bool {
    is_ident_start(c) || ('0' <= c && c <= '9')
}

/// Whether a `{{` tag opener stands at position `i`.
pub open spec fn open_at(s: Seq<char>, i: int) -> bool {
    0 <= i && i + 2 <= s.len() && s[i] == '{' && s[i + 1] == '{'
}

/// Whether a `{{@` editable tag opener stands at position `i`.
pub open spec fn edit_tag_at(s: Seq<char>, i: int) -> bool {
    open_at(s, i) && i + 3 <= s.len() && s[i + 2] == '@'
}

/// The position of the first `{{` at or after `i`, or the length of `s`.
pub open spec fn find_open(s: Seq<char>, i: int) -> int
    decreases s.len() - i when 0 <= i <= s.len()
{
    if i + 2 > s.len() {
        s.len() as int
    } else if open_at(s, i) {
        i
    } else {
        find_open(s, i + 1)
    }
}

/// The first non-whitespace position at or after `i`.
pub open spec fn skip_ws(s: Seq<char>, i: int) -> int
    decreases s.len() - i when 0 <= i <= s.len()
{
    if i >= s.len() {
        i
    } else if is_ws(s[i]) {
        skip_ws(s, i + 1)
    } else {
        i
    }
}

/// The end of the identifier-character run starting at `i`.
pub open spec fn scan_ident(s: Seq<char>, i: int) -> int
    decreases s.len() - i when 0 <= i <= s.len()
{
    if i >= s.len() {
        i
    } else if is_ident_char(s[i]) {
        scan_ident(s, i + 1)
    } else {
        i
    }
}

/// A closing `}}` at `i` followed by nothing else: helper for tag ends.
pub open spec fn tag_end_at(s: Seq<char>, i: int) -> bool {
    0 <= i && i + 2 <= s.len() && s[i] == '}' && s[i + 1] == '}'
}

/// `{{ ws* identifier ws* }}` beginning at `i` (which must hold `{{`):
/// the variable's name and the position after the tag.
pub open spec fn var_tag(s: Seq<char>, i: int) -> Option<(Seq<char>, int)> {
    let a = skip_ws(s, i + 2);
    if a < s.len() && is_ident_start(s[a]) {
        let b = scan_ident(s, a);
        let c = skip_ws(s, b);
        if tag_end_at(s, c) {
            Some((s.subrange(a, b), c + 2))
        } else {
            None
        }
    } else {
        None
    }
}

/// `{{@ ws* identifier ws* }}` beginning at `i` (which must hold `{{@`):
/// the editable region's name and the position after the tag.
pub open spec fn open_tag(s: Seq<char>, i: int) -> Option<(Seq<char>, int)> {
    let a = skip_ws(s, i + 3);
    if a < s.len() && is_ident_start(s[a]) {
        let b = scan_ident(s, a);
        let c = skip_ws(s, b);
        if tag_end_at(s, c) {
            Some((s.subrange(a, b), c + 2))
        } else {
            None
        }
    } else {
        None
    }
}

/// `{{@ ws* / ws* }}` beginning at `i` (which must hold `{{@`): the
/// position after the closing tag.
pub open spec fn close_tag(s: Seq<char>, i: int) -> Option<int> {
    let a = skip_ws(s, i + 3);
    if a < s.len() && s[a] == '/' {
        let c = skip_ws(s, a + 1);
        if tag_end_at(s, c) {
            Some(c + 2)
        } else {
            None
        }
    } else {
        None
    }
}

/// Why a template source is rejected.
#[derive(Clone, Copy, Debug, PartialEq, Eq, Structural)]
pub enum ParseErrorKind {
    /// A `{{` or `{{@` tag that is malformed or never closed by `}}`.
    UnclosedTag,
    /// A `{{@ / }}` closing tag with no editable region open.
    UnexpectedCloseTag,
    /// An editable region whose `{{@ / }}` closing tag is missing.
    UnclosedEditable,
    /// An editable region opened inside another editable region.
    NestedEditable,
    /// A second editable region with a name already used in this template.
    DuplicateEditable,
}

/// A rejected parse: the character position it was detected at and why.
pub struct ParseFail {
    pub pos: int,
    pub kind: ParseErrorKind,
}

/// Parses the body of an editable region from `i` up to and including its
/// closing tag.  `open_pos` is the position of the region's opening tag,
/// used to report an unterminated region.  Returns the pieces of the body
/// and the position after the closing tag.  A single newline immediately
/// before the closing tag is stripped (the one after the opening tag is
/// stripped by the caller).
pub open spec fn parse_inner(s: Seq<char>, i: int, open_pos: int) -> Result<
    (Seq<Piece>, int),
    ParseFail,
>
    decreases s.len() - i when 0 <= i <= s.len()
{
    if i >= s.len() {
        Err(ParseFail { pos: open_pos, kind: ParseErrorKind::UnclosedEditable })
    } else if open_at(s, i) {
        if edit_tag_at(s, i) {
            match close_tag(s, i) {
                Some(j) => Ok((Seq::empty(), j)),
                None => match open_tag(s, i) {
                    Some(_) => Err(ParseFail { pos: i, kind: ParseErrorKind::NestedEditable }),
                    None => Err(ParseFail { pos: i, kind: ParseErrorKind::UnclosedTag }),
                },
            }
        } else {
            match var_tag(s, i) {
                Some((name, j)) => if i < j <= s.len() {
                    match parse_inner(s, j, open_pos) {
                        Ok((ps, e)) => Ok((seq![Piece::Var(name)] + ps, e)),
                        Err(f) => Err(f),
                    }
                } else {
                    Err(ParseFail { pos: i, kind: ParseErrorKind::UnclosedTag })
                },
                None => Err(ParseFail { pos: i, kind: ParseErrorKind::UnclosedTag }),
            }
        }
    } else {
        let j = find_open(s, i);
        if !(i < j <= s.len()) {
            Err(ParseFail { pos: i, kind: ParseErrorKind::UnclosedTag })
        } else if j == s.len() {
            Err(ParseFail { pos: open_pos, kind: ParseErrorKind::UnclosedEditable })
        } else if edit_tag_at(s, j) && close_tag(s, j) is Some {
            let e = close_tag(s, j)->Some_0;
            let raw_end = if s[j - 1] == '\n' {
                j - 1
            } else {
                j
            };
            if raw_end > i {
                Ok((seq![Piece::Raw(s.subrange(i, raw_end))], e))
            } else {
                Ok((Seq::empty(), e))
            }
        } else {
            match parse_inner(s, j, open_pos) {
                Ok((ps, e)) => Ok((seq![Piece::Raw(s.subrange(i, j))] + ps, e)),
                Err(f) => Err(f),
            }
        }
    }
}

/// Parses top-level elements from `i` to the end of the source.  `seen`
/// holds the editable-region names declared so far, to reject duplicates.
pub open spec fn parse_elems(s: Seq<char>, i: int, seen: Set<Seq<char>>) -> Result<
    Seq<Node>,
    ParseFail,
>
    decreases s.len() - i when 0 <= i <= s.len()
{
    if i >= s.len() {
        Ok(Seq::empty())
    } else if open_at(s, i) {
        if edit_tag_at(s, i) {
            if close_tag(s, i) is Some {
                Err(ParseFail { pos: i, kind: ParseErrorKind::UnexpectedCloseTag })
            } else {
                match open_tag(s, i) {
                    None => Err(ParseFail { pos: i, kind: ParseErrorKind::UnclosedTag }),
                    Some((name, j0)) => if seen.contains(name) {
                        Err(ParseFail { pos: i, kind: ParseErrorKind::DuplicateEditable })
                    } else {
                        let b = if j0 < s.len() && s[j0] == '\n' {
                            j0 + 1
                        } else {
                            j0
                        };
                        if !(i < b <= s.len()) {
                            Err(ParseFail { pos: i, kind: ParseErrorKind::UnclosedTag })
                        } else {
                            match parse_inner(s, b, i) {
                                Err(f) => Err(f),
                                Ok((ps, j)) => if !(i < j <= s.len()) {
                                    Err(ParseFail { pos: i, kind: ParseErrorKind::UnclosedTag })
                                } else {
                                    match parse_elems(s, j, seen.insert(name)) {
                                        Err(f) => Err(f),
                                        Ok(rest) => Ok(seq![Node::Edit(name, ps)] + rest),
                                    }
                                },
                            }
                        }
                    },
                }
            }
        } else {
            match var_tag(s, i) {
                None => Err(ParseFail { pos: i, kind: ParseErrorKind::UnclosedTag }),
                Some((name, j)) => if !(i < j <= s.len()) {
                    Err(ParseFail { pos: i, kind: ParseErrorKind::UnclosedTag })
                } else {
                    match parse_elems(s, j, seen) {
                        Err(f) => Err(f),
                        Ok(rest) => Ok(seq![Node::Var(name)] + rest),
                    }
                },
            }
        }
    } else {
        let j = find_open(s, i);
        if !(i < j <= s.len()) {
            Err(ParseFail { pos: i, kind: ParseErrorKind::UnclosedTag })
        } else {
            match parse_elems(s, j, seen) {
                Err(f) => Err(f),
                Ok(rest) => Ok(seq![Node::Raw(s.subrange(i, j))] + rest),
            }
        }
    }
}

/// The meaning of a template source: the element sequence its text denotes,
/// or the parse failure that rejects it.
pub open spec fn parse_template(s: Seq<char>) -> Result<Seq<Node>, ParseFail> {
    parse_elems(s, 0, Set::empty())
}

/// One-based line number of character position `pos` in `s`.
pub open spec fn line_of(s: Seq<char>, pos: int) -> int {
    1 + count_newlines(s, 0, pos)
}

/// The number of newline characters of `s` in positions `[i, end)`.
pub open spec fn count_newlines(s: Seq<char>, i: int, end: int) -> int
    decreases end - i when i <= end
{
    if i >= end {
        0
    } else {
        count_newlines(s, i, end - 1) + if 0 <= end - 1 < s.len() && s[end - 1] == '\n' {
            1int
        } else {
            0int
        }
    }
}

// ------------------------------------------------------------------
// Bounds of the scanning helpers.
// ------------------------------------------------------------------
pub proof fn lemma_find_open_bounds(s: Seq<char>, i: int)
    requires
        0 <= i <= s.len(),
    ensures
        i <= find_open(s, i) <= s.len(),
        find_open(s, i) < s.len() ==> open_at(s, find_open(s, i)),
        forall|m: int| i <= m < find_open(s, i) ==> !open_at(s, m),
    decreases s.len() - i,
{
    if i + 2 > s.len() {
        assert forall|m: int| i <= m < find_open(s, i) implies !open_at(s, m) by {}
    } else if open_at(s, i) {
    } else {
        lemma_find_open_bounds(s, i + 1);
    }
}

pub proof fn lemma_skip_ws_bounds(s: Seq<char>, i: int)
    requires
        0 <= i <= s.len(),
    ensures
        i <= skip_ws(s, i) <= s.len(),
    decreases s.len() - i,
{
    if i < s.len() && is_ws(s[i]) {
        lemma_skip_ws_bounds(s, i + 1);
    }
}

pub proof fn lemma_scan_ident_bounds(s: Seq<char>, i: int)
    requires
        0 <= i <= s.len(),
    ensures
        i <= scan_ident(s, i) <= s.len(),
    decreases s.len() - i,
{
    if i < s.len() && is_ident_char(s[i]) {
        lemma_scan_ident_bounds(s, i + 1);
    }
}

pub proof fn lemma_var_tag_bounds(s: Seq<char>, i: int)
    requires
        0 <= i,
        i + 2 <= s.len(),
    ensures
        var_tag(s, i) is Some ==> i < var_tag(s, i)->Some_0.1 <= s.len(),
{
    lemma_skip_ws_bounds(s, i + 2);
    if var_tag(s, i) is Some {
        let a = skip_ws(s, i + 2);
        lemma_scan_ident_bounds(s, a);
        lemma_skip_ws_bounds(s, scan_ident(s, a));
    }
}

pub proof fn lemma_open_tag_bounds(s: Seq<char>, i: int)
    requires
        0 <= i,
        i + 3 <= s.len(),
    ensures
        open_tag(s, i) is Some ==> i < open_tag(s, i)->Some_0.1 <= s.len(),
{
    lemma_skip_ws_bounds(s, i + 3);
    if open_tag(s, i) is Some {
        let a = skip_ws(s, i + 3);
        lemma_scan_ident_bounds(s, a);
        lemma_skip_ws_bounds(s, scan_ident(s, a));
    }
}

// ------------------------------------------------------------------
// Concatenation laws of the folds.
// ------------------------------------------------------------------
pub proof fn lemma_render_pieces_concat(a: Seq<Piece>, b: Seq<Piece>, vals: Vals)
    ensures
        render_pieces(a + b, vals) == render_pieces(a, vals) + render_pieces(b, vals),
    decreases a.len(),
{
    if a.len() == 0 {
        assert(a + b =~= b);
        assert(render_pieces(a, vals) + render_pieces(b, vals) =~= render_pieces(b, vals));
    } else {
        assert((a + b)[0] == a[0]);
        assert((a + b).skip(1) =~= a.skip(1) + b);
        lemma_render_pieces_concat(a.skip(1), b, vals);
        assert(render_piece(a[0], vals) + (render_pieces(a.skip(1), vals) + render_pieces(
            b,
            vals,
        )) =~= (render_piece(a[0], vals) + render_pieces(a.skip(1), vals)) + render_pieces(
            b,
            vals,
        ));
    }
}

pub proof fn lemma_render_pieces_one(p: Piece, vals: Vals)
    ensures
        render_pieces(seq![p], vals) == render_piece(p, vals),
{
    let l = seq![p];
    assert(l.len() == 1);
    assert(l[0] == p);
    assert(l.skip(1) =~= Seq::<Piece>::empty());
    assert(render_pieces(l.skip(1), vals) == Seq::<char>::empty());
    assert(render_pieces(l, vals) == render_piece(p, vals) + Seq::<char>::empty());
    assert(render_piece(p, vals) + Seq::<char>::empty() =~= render_piece(p, vals));
}

pub proof fn lemma_render_nodes_one(nd: Node, vals: Vals)
    ensures
        render_nodes(seq![nd], vals) == render_node(nd, vals),
{
    let l = seq![nd];
    assert(l.len() == 1);
    assert(l[0] == nd);
    assert(l.skip(1) =~= Seq::<Node>::empty());
    assert(render_nodes(l.skip(1), vals) == Seq::<char>::empty());
    assert(render_nodes(l, vals) == render_node(nd, vals) + Seq::<char>::empty());
    assert(render_node(nd, vals) + Seq::<char>::empty() =~= render_node(nd, vals));
}

pub proof fn lemma_rebuild_one(nd: Node, vals: Vals, caps: Map<Seq<char>, Seq<char>>)
    ensures
        rebuild(seq![nd], vals, caps) == (match nd {
            Node::Edit(name, _) => if caps.dom().contains(name) {
                caps[name]
            } else {
                Seq::empty()
            },
            _ => node_literal(nd, vals),
        }),
{
    let l = seq![nd];
    let h = match nd {
        Node::Edit(name, _) => if caps.dom().contains(name) {
            caps[name]
        } else {
            Seq::empty()
        },
        _ => node_literal(nd, vals),
    };
    assert(l.len() == 1);
    assert(l[0] == nd);
    assert(l.skip(1) =~= Seq::<Node>::empty());
    assert(rebuild(l.skip(1), vals, caps) == Seq::<char>::empty());
    assert(rebuild(l, vals, caps) == h + Seq::<char>::empty());
    assert(h + Seq::<char>::empty() =~= h);
}

pub proof fn lemma_render_nodes_concat(a: Seq<Node>, b: Seq<Node>, vals: Vals)
    ensures
        render_nodes(a + b, vals) == render_nodes(a, vals) + render_nodes(b, vals),
    decreases a.len(),
{
    if a.len() == 0 {
        assert(a + b =~= b);
        assert(render_nodes(a, vals) + render_nodes(b, vals) =~= render_nodes(b, vals));
    } else {
        assert((a + b)[0] == a[0]);
        assert((a + b).skip(1) =~= a.skip(1) + b);
        lemma_render_nodes_concat(a.skip(1), b, vals);
        assert(render_node(a[0], vals) + (render_nodes(a.skip(1), vals) + render_nodes(b, vals))
            =~= (render_node(a[0], vals) + render_nodes(a.skip(1), vals)) + render_nodes(
            b,
            vals,
        ));
    }
}

pub proof fn lemma_rebuild_concat(a: Seq<Node>, b: Seq<Node>, vals: Vals, caps: Map<
    Seq<char>,
    Seq<char>,
>)
    ensures
        rebuild(a + b, vals, caps) == rebuild(a, vals, caps) + rebuild(b, vals, caps),
    decreases a.len(),
{
    if a.len() == 0 {
        assert(a + b =~= b);
        assert(rebuild(a, vals, caps) + rebuild(b, vals, caps) =~= rebuild(b, vals, caps));
    } else {
        assert((a + b)[0] == a[0]);
        assert((a + b).skip(1) =~= a.skip(1) + b);
        lemma_rebuild_concat(a.skip(1), b, vals, caps);
        let h = match a[0] {
            Node::Edit(name, _) => if caps.dom().contains(name) {
                caps[name]
            } else {
                Seq::empty()
            },
            _ => node_literal(a[0], vals),
        };
        assert(h + (rebuild(a.skip(1), vals, caps) + rebuild(b, vals, caps)) =~= (h + rebuild(
            a.skip(1),
            vals,
            caps,
        )) + rebuild(b, vals, caps));
    }
}

// ------------------------------------------------------------------
// Greedy matching.
// ------------------------------------------------------------------
/// Pins the greedy span down: if the tail matches with `k` removed and with
/// no larger span up to `bound`, the greedy span is exactly `k`.
pub proof fn lemma_greedy_k_pin(ns: Seq<Node>, vals: Vals, out: Seq<char>, bound: int, k: int)
    requires
        0 <= k <= bound,
        matches_tail(ns, vals, out.skip(k)),
        forall|k2: int| k < k2 <= bound ==> !matches_tail(ns, vals, out.skip(k2)),
    ensures
        greedy_k(ns, vals, out, bound) == k,
    decreases bound - k,
{
    if bound == k {
    } else {
        assert(!matches_tail(ns, vals, out.skip(bound)));
        lemma_greedy_k_pin(ns, vals, out, bound - 1, k);
    }
}

/// The capture set of a match names exactly the editable regions.
pub proof fn lemma_captures_dom(ns: Seq<Node>, vals: Vals, out: Seq<char>)
    ensures
        captures(ns, vals, out).dom() == edit_names(ns),
    decreases ns.len(),
{
    if ns.len() == 0 {
        assert(captures(ns, vals, out).dom() =~= edit_names(ns));
    } else {
        match ns[0] {
            Node::Edit(name, _) => {
                let k = greedy_k(ns.skip(1), vals, out, out.len() as int);
                lemma_captures_dom(ns.skip(1), vals, out.skip(k));
                assert(caps_list(ns, vals, out) == seq![(name, out.take(k))] + caps_list(
                    ns.skip(1),
                    vals,
                    out.skip(k),
                ));
                assert(caps_list(ns, vals, out).skip(1) =~= caps_list(
                    ns.skip(1),
                    vals,
                    out.skip(k),
                ));
                assert(caps_list(ns, vals, out)[0] == (name, out.take(k)));
                assert(captures(ns, vals, out).dom() =~= edit_names(ns));
            },
            _ => {
                let lit = node_literal(ns[0], vals);
                lemma_captures_dom(ns.skip(1), vals, out.skip(lit.len() as int));
                assert(captures(ns, vals, out).dom() =~= edit_names(ns));
            },
        }
    }
}

/// The first entry with a given name decides what the capture map binds
/// the name to.
pub proof fn lemma_list_to_map_first(l: Seq<(Seq<char>, Seq<char>)>, k: Seq<char>, i: int)
    requires
        0 <= i < l.len(),
        l[i].0 == k,
        forall|j: int| 0 <= j < i ==> l[j].0 != k,
    ensures
        list_to_map(l).dom().contains(k),
        list_to_map(l)[k] == l[i].1,
    decreases i,
{
    if i == 0 {
    } else {
        assert(l[0].0 != k);
        assert(l.skip(1)[i - 1] == l[i]);
        assert(forall|j: int| 0 <= j < i - 1 ==> l.skip(1)[j] == l[j + 1]);
        lemma_list_to_map_first(l.skip(1), k, i - 1);
    }
}

/// A name no entry carries is not in the capture map.
pub proof fn lemma_list_to_map_none(l: Seq<(Seq<char>, Seq<char>)>, k: Seq<char>)
    requires
        forall|j: int| 0 <= j < l.len() ==> l[j].0 != k,
    ensures
        !list_to_map(l).dom().contains(k),
    decreases l.len(),
{
    if l.len() > 0 {
        assert(forall|j: int| 0 <= j < l.len() - 1 ==> l.skip(1)[j] == l[j + 1]);
        lemma_list_to_map_none(l.skip(1), k);
    }
}

/// Every editable region's name is among the template's region names.
pub proof fn lemma_edit_names_member(ns: Seq<Node>, m: int)
    requires
        0 <= m < ns.len(),
        ns[m] is Edit,
    ensures
        edit_names(ns).contains(ns[m]->Edit_0),
    decreases m,
{
    if m == 0 {
    } else {
        assert(ns.skip(1)[m - 1] == ns[m]);
        lemma_edit_names_member(ns.skip(1), m - 1);
    }
}

/// A template whose every editable-region name `names` covers has its name
/// set inside `names`.
pub proof fn lemma_edit_names_all(ns: Seq<Node>, names: Set<Seq<char>>)
    requires
        forall|m: int| 0 <= m < ns.len() && ns[m] is Edit ==> names.contains(#[trigger] ns[m]->Edit_0),
    ensures
        edit_names(ns).subset_of(names),
    decreases ns.len(),
{
    if ns.len() > 0 {
        assert(forall|m: int|
            0 <= m < ns.skip(1).len() && ns.skip(1)[m] is Edit ==> names.contains(
                #[trigger] ns.skip(1)[m]->Edit_0,
            )) by {
            assert(forall|m: int| 0 <= m < ns.skip(1).len() ==> ns.skip(1)[m] == ns[m + 1]);
        }
        lemma_edit_names_all(ns.skip(1), names);
    }
}

// ------------------------------------------------------------------
// Markup-freedom of parsed scaffold text.
// ------------------------------------------------------------------
/// No `{{` opener occurs anywhere in `t`.
pub open spec fn no_open_in(t: Seq<char>) -> bool {
    forall|i: int| !open_at(t, i)
}

/// `t` ends with `{` (and so could form an opener with a following `{`).
pub open spec fn ends_brace(t: Seq<char>) -> bool {
    t.len() > 0 && t[t.len() - 1] == '{'
}

/// The scaffold text of an editable region's body holds no opener, and only
/// its last piece may end with `{`.
pub open spec fn pieces_clean(ps: Seq<Piece>) -> bool {
    &&& forall|i: int|
        0 <= i < ps.len() && ps[i] is Raw ==> no_open_in(#[trigger] ps[i]->Raw_0)
    &&& forall|i: int|
        0 <= i < ps.len() - 1 && ps[i] is Raw ==> !ends_brace(#[trigger] ps[i]->Raw_0)
}

/// The scaffold text of one element holds no opener.
pub open spec fn node_clean(n: Node) -> bool {
    match n {
        Node::Raw(t) => no_open_in(t),
        Node::Var(_) => true,
        Node::Edit(_, ps) => pieces_clean(ps),
    }
}

/// The element's rendering cannot end with `{` (under brace-free values):
/// its last scaffold text does not end with one.
pub open spec fn node_no_tail(n: Node) -> bool {
    match n {
        Node::Raw(t) => !ends_brace(t),
        Node::Var(_) => true,
        Node::Edit(_, ps) => ps.len() == 0 || !(ps.last() is Raw && ends_brace(ps.last()->Raw_0)),
    }
}

/// No value of the mapping contains a `{` at all.
pub open spec fn vals_clean(vals: Vals) -> bool {
    forall|k: Seq<char>| #[trigger]
        vals.dom().contains(k) ==> forall|i: int| 0 <= i < vals[k].len() ==> vals[k][i] != '{'
}

/// A run the scanner cut at the first opener holds no opener itself.
proof fn lemma_raw_run_clean(s: Seq<char>, i: int, e: int)
    requires
        0 <= i <= e <= s.len(),
        forall|m: int| i <= m < e ==> !open_at(s, m),
    ensures
        no_open_in(s.subrange(i, e)),
{
    let t = s.subrange(i, e);
    assert forall|m: int| !open_at(t, m) by {
        if 0 <= m && m + 2 <= t.len() {
            assert(t[m] == s[i + m]);
            assert(t[m + 1] == s[i + m + 1]);
            assert(!open_at(s, i + m));
        }
    }
}

/// The body a successful `parse_inner` produces has clean scaffold text.
proof fn lemma_parse_inner_clean(s: Seq<char>, i: int, open_pos: int)
    requires
        0 <= i <= s.len(),
        parse_inner(s, i, open_pos) is Ok,
    ensures
        pieces_clean(parse_inner(s, i, open_pos)->Ok_0.0),
    decreases s.len() - i,
{
    let ps = parse_inner(s, i, open_pos)->Ok_0.0;
    if i >= s.len() {
    } else if open_at(s, i) {
        if edit_tag_at(s, i) {
            assert(ps =~= Seq::<Piece>::empty());
        } else {
            let (name, j) = var_tag(s, i)->Some_0;
            let rest = parse_inner(s, j, open_pos)->Ok_0.0;
            lemma_parse_inner_clean(s, j, open_pos);
            assert(ps == seq![Piece::Var(name)] + rest);
            assert(forall|m: int| 0 <= m < rest.len() ==> ps[m + 1] == rest[m]);
            assert(pieces_clean(ps));
        }
    } else {
        let j = find_open(s, i);
        lemma_find_open_bounds(s, i);
        if edit_tag_at(s, j) && close_tag(s, j) is Some {
            let raw_end = if s[j - 1] == '\n' {
                j - 1
            } else {
                j
            };
            if raw_end > i {
                lemma_raw_run_clean(s, i, raw_end);
                assert(ps == seq![Piece::Raw(s.subrange(i, raw_end))]);
                assert(pieces_clean(ps));
            } else {
                assert(pieces_clean(ps));
            }
        } else {
            let rest = parse_inner(s, j, open_pos)->Ok_0.0;
            lemma_parse_inner_clean(s, j, open_pos);
            assert(ps == seq![Piece::Raw(s.subrange(i, j))] + rest);
            lemma_raw_run_clean(s, i, j);
            let t = s.subrange(i, j);
            assert(!ends_brace(t)) by {
                if t.len() > 0 && t[t.len() - 1] == '{' {
                    assert(s[j - 1] == '{');
                    assert(j < s.len());
                    assert(open_at(s, j));
                    assert(s[j] == '{');
                    assert(open_at(s, j - 1));
                    assert(false);
                }
            }
            assert(forall|m: int| 0 <= m < rest.len() ==> ps[m + 1] == rest[m]);
            assert(pieces_clean(ps));
        }
    }
}

/// A successful parse produces elements whose scaffold text holds no
/// opener, and whose non-final literal runs do not end with `{`.
pub proof fn lemma_parse_output_clean(s: Seq<char>, i: int, seen: Set<Seq<char>>)
    requires
        0 <= i <= s.len(),
        parse_elems(s, i, seen) is Ok,
    ensures
        forall|m: int|
            0 <= m < parse_elems(s, i, seen)->Ok_0.len() ==> node_clean(
                #[trigger] parse_elems(s, i, seen)->Ok_0[m],
            ),
        forall|m: int|
            0 <= m < parse_elems(s, i, seen)->Ok_0.len() - 1 && parse_elems(
                s,
                i,
                seen,
            )->Ok_0[m] is Raw ==> node_no_tail(#[trigger] parse_elems(s, i, seen)->Ok_0[m]),
    decreases s.len() - i,
{
    let ns = parse_elems(s, i, seen)->Ok_0;
    if i >= s.len() {
    } else if open_at(s, i) {
        if edit_tag_at(s, i) {
            let (name, j0) = open_tag(s, i)->Some_0;
            let b = if j0 < s.len() && s[j0] == '\n' {
                j0 + 1
            } else {
                j0
            };
            let (ps, j) = parse_inner(s, b, i)->Ok_0;
            let rest = parse_elems(s, j, seen.insert(name))->Ok_0;
            lemma_parse_inner_clean(s, b, i);
            lemma_parse_output_clean(s, j, seen.insert(name));
            assert(ns == seq![Node::Edit(name, ps)] + rest);
            assert(forall|m: int| 0 <= m < rest.len() ==> ns[m + 1] == rest[m]);
            assert(node_clean(ns[0]));
        } else {
            let (name, j) = var_tag(s, i)->Some_0;
            let rest = parse_elems(s, j, seen)->Ok_0;
            lemma_parse_output_clean(s, j, seen);
            assert(ns == seq![Node::Var(name)] + rest);
            assert(forall|m: int| 0 <= m < rest.len() ==> ns[m + 1] == rest[m]);
        }
    } else {
        let j = find_open(s, i);
        lemma_find_open_bounds(s, i);
        let rest = parse_elems(s, j, seen)->Ok_0;
        lemma_parse_output_clean(s, j, seen);
        assert(ns == seq![Node::Raw(s.subrange(i, j))] + rest);
        lemma_raw_run_clean(s, i, j);
        assert(forall|m: int| 0 <= m < rest.len() ==> ns[m + 1] == rest[m]);
        let t = s.subrange(i, j);
        if rest.len() > 0 {
            assert(j < s.len());
            assert(!ends_brace(t)) by {
                if t.len() > 0 && t[t.len() - 1] == '{' {
                    assert(s[j - 1] == '{');
                    assert(open_at(s, j));
                    assert(s[j] == '{');
                    assert(open_at(s, j - 1));
                    assert(false);
                }
            }
        }
        assert(node_clean(ns[0]));
    }
}

/// A successful parse declares each editable-region name once, and none of
/// the names the parser was told to treat as already taken.
pub proof fn lemma_parse_unique(s: Seq<char>, i: int, seen: Set<Seq<char>>)
    requires
        0 <= i <= s.len(),
        parse_elems(s, i, seen) is Ok,
    ensures
        unique_names(parse_elems(s, i, seen)->Ok_0),
        edit_names(parse_elems(s, i, seen)->Ok_0).disjoint(seen),
    decreases s.len() - i,
{
    let ns = parse_elems(s, i, seen)->Ok_0;
    if i >= s.len() {
        assert(edit_names(ns).disjoint(seen));
    } else if open_at(s, i) {
        if edit_tag_at(s, i) {
            let (name, j0) = open_tag(s, i)->Some_0;
            let b = if j0 < s.len() && s[j0] == '\n' {
                j0 + 1
            } else {
                j0
            };
            let (ps, j) = parse_inner(s, b, i)->Ok_0;
            let rest = parse_elems(s, j, seen.insert(name))->Ok_0;
            lemma_parse_unique(s, j, seen.insert(name));
            assert(ns == seq![Node::Edit(name, ps)] + rest);
            assert(ns.skip(1) =~= rest);
            assert(ns[0] == Node::Edit(name, ps));
            assert(!edit_names(rest).contains(name));
            assert(edit_names(ns) =~= edit_names(rest).insert(name));
            assert(edit_names(ns).disjoint(seen));
        } else {
            let (name, j) = var_tag(s, i)->Some_0;
            let rest = parse_elems(s, j, seen)->Ok_0;
            lemma_parse_unique(s, j, seen);
            assert(ns == seq![Node::Var(name)] + rest);
            assert(ns.skip(1) =~= rest);
            assert(ns[0] == Node::Var(name));
            assert(edit_names(ns) =~= edit_names(rest));
        }
    } else {
        let j = find_open(s, i);
        let rest = parse_elems(s, j, seen)->Ok_0;
        lemma_parse_unique(s, j, seen);
        assert(ns == seq![Node::Raw(s.subrange(i, j))] + rest);
        assert(ns.skip(1) =~= rest);
        assert(ns[0] == Node::Raw(s.subrange(i, j)));
        assert(edit_names(ns) =~= edit_names(rest));
    }
}

} // verus!
