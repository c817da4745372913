//! The `tmplpp` templating engine: parsing, rendering, structural
//! validation, and upgrading of generated output to a newer template.

use vstd::prelude::*;
use vstd::string::*;

use crate::blueprint::Values;
use crate::templating::model;
use crate::templating::model::{Node, Piece};

pub use crate::templating::model::ParseErrorKind;

verus! {

/// A rejected template source: where the offending text stands (as a
/// character offset and a one-based line number) and what was wrong there.
#[derive(Clone, Copy, Debug, PartialEq, Eq, Structural)]
pub struct TemplateParseError {
    pub pos: usize,
    pub line: usize,
    pub kind: ParseErrorKind,
}

/// One element of a parsed template.
#[derive(Debug)]
pub enum Element {
    /// A run of literal scaffold text.
    RawText(String),
    /// A named editable region; its children are `RawText` and `Var` only.
    Editable(String, Vec<Element>),
    /// A reference to a named value.
    Var(String),
}

impl Element {
    /// Whether this element may stand inside an editable region.
    pub open spec fn is_inner(self) -> bool {
        match self {
            Element::RawText(_) => true,
            Element::Var(_) => true,
            Element::Editable(_, _) => false,
        }
    }

    /// The model of an element inside an editable region.
    pub open spec fn piece_view(self) -> Piece {
        match self {
            Element::RawText(t) => Piece::Raw(t@),
            Element::Var(n) => Piece::Var(n@),
            Element::Editable(_, _) => Piece::Raw(Seq::empty()),
        }
    }

    /// The model of a top-level element.
    pub open spec fn node_view(self) -> Node {
        match self {
            Element::RawText(t) => Node::Raw(t@),
            Element::Var(n) => Node::Var(n@),
            Element::Editable(n, ch) => Node::Edit(
                n@,
                ch@.map_values(|e: Element| e.piece_view()),
            ),
        }
    }

    /// Editable regions do not nest.
    pub open spec fn wf(self) -> bool {
        match self {
            Element::Editable(_, ch) => forall|i: int| 0 <= i < ch@.len() ==> ch@[i].is_inner(),
            _ => true,
        }
    }
}

/// Deep equality of elements: same shape, same text, children compared
/// pointwise.
pub open spec fn elem_deep_eq(a: Element, b: Element) -> bool
    decreases a,
{
    match (a, b) {
        (Element::RawText(x), Element::RawText(y)) => x@ == y@,
        (Element::Var(x), Element::Var(y)) => x@ == y@,
        (Element::Editable(n1, c1), Element::Editable(n2, c2)) => n1@ == n2@ && c1@.len()
            == c2@.len() && forall|i: int|
            0 <= i < c1@.len() ==> elem_deep_eq(#[trigger] c1@[i], c2@[i]),
        _ => false,
    }
}

/// Compares two elements for deep equality.
#[verifier::loop_isolation(false)]
fn elem_eq(a: &Element, b: &Element) -> (r: bool)
    ensures
        r == elem_deep_eq(*a, *b),
    decreases *a,
{
    match (a, b) {
        (Element::RawText(x), Element::RawText(y)) => crate::blueprint::values::str_eq(
            x.as_str(),
            y.as_str(),
        ),
        (Element::Var(x), Element::Var(y)) => crate::blueprint::values::str_eq(
            x.as_str(),
            y.as_str(),
        ),
        (Element::Editable(n1, c1), Element::Editable(n2, c2)) => {
            if !crate::blueprint::values::str_eq(n1.as_str(), n2.as_str()) {
                return false;
            }
            if c1.len() != c2.len() {
                return false;
            }
            let mut i: usize = 0;
            while i < c1.len()
                invariant
                    0 <= i <= c1@.len(),
                    c1@.len() == c2@.len(),
                    forall|j: int| 0 <= j < i ==> elem_deep_eq(#[trigger] c1@[j], c2@[j]),
                decreases c1@.len() - i,
            {
                if !elem_eq(&c1[i], &c2[i]) {
                    return false;
                }
                i = i + 1;
            }
            true
        },
        _ => false,
    }
}

impl PartialEq for Element {
    /// Elements are equal when they have the same shape and text.
    fn eq(&self, other: &Element) -> (r: bool) {
        elem_eq(self, other)
    }
}

impl vstd::std_specs::cmp::PartialEqSpecImpl for Element {
    open spec fn obeys_eq_spec() -> bool {
        true
    }

    open spec fn eq_spec(&self, other: &Element) -> bool {
        elem_deep_eq(*self, *other)
    }
}

impl Eq for Element {

}

/// The model of a sequence of elements.
pub open spec fn elements_view(es: Seq<Element>) -> Seq<Node> {
    es.map_values(|e: Element| e.node_view())
}

/// Every element is well-formed and no two editable regions share a name.
pub open spec fn elements_wf(es: Seq<Element>) -> bool {
    (forall|i: int| 0 <= i < es.len() ==> es[i].wf()) && model::unique_names(elements_view(es))
}

/// A parsed template: an ordered sequence of elements.
#[derive(Debug)]
pub struct Template {
    elements: Vec<Element>,
}

impl View for Template {
    type V = Seq<Node>;

    closed spec fn view(&self) -> Seq<Node> {
        elements_view(self.elements@)
    }
}

impl Template {
    #[verifier::type_invariant]
    spec fn inv(self) -> bool {
        elements_wf(self.elements@)
    }

    /// Wraps a ready-made element sequence.  The elements must respect the
    /// template invariants: no editable region nested in another and no two
    /// editable regions sharing a name.
    pub fn from_elements(elements: Vec<Element>) -> (r: Template)
        requires
            elements_wf(elements@),
        ensures
            r@ == elements_view(elements@),
    {
        Template { elements }
    }

    /// The elements of the template, in source order.
    pub fn elements(&self) -> (r: &Vec<Element>)
        ensures
            self@ == elements_view(r@),
            elements_wf(r@),
    {
        proof {
            use_type_invariant(&*self);
        }
        &self.elements
    }
}

// ------------------------------------------------------------------
// Character scanning.
// ------------------------------------------------------------------
fn is_ws_char(c: char) -> (r: bool)
    ensures
        r == model::is_ws(c),
{
    c == ' ' || c == '\t' || c == '\r' || c == '\n'
}

fn is_ident_start_char(c: char) -> (r: bool)
    ensures
        r == model::is_ident_start(c),
{
    ('a' <= c && c <= 'z') || ('A' <= c && c <= 'Z') || c == '_'
}

fn is_ident_char_exec(c: char) -> (r: bool)
    ensures
        r == model::is_ident_char(c),
{
    is_ident_start_char(c) || ('0' <= c && c <= '9')
}

/// Whether a `{{` opener stands at position `i`.
fn is_open_at(s: &str, n: usize, i: usize) -> (r: bool)
    requires
        n == s@.len(),
        i <= n,
    ensures
        r == model::open_at(s@, i as int),
{
    if i < n && i + 1 < n {
        s.get_char(i) == '{' && s.get_char(i + 1) == '{'
    } else {
        false
    }
}

/// Whether a `{{@` editable-tag opener stands at position `i`.
fn is_edit_tag_at(s: &str, n: usize, i: usize) -> (r: bool)
    requires
        n == s@.len(),
        i <= n,
    ensures
        r == model::edit_tag_at(s@, i as int),
{
    is_open_at(s, n, i) && i + 2 < n && s.get_char(i + 2) == '@'
}

fn exec_skip_ws(s: &str, n: usize, i: usize) -> (r: usize)
    requires
        n == s@.len(),
        i <= n,
    ensures
        r as int == model::skip_ws(s@, i as int),
        i <= r <= n,
{
    let mut c = i;
    while c < n && is_ws_char(s.get_char(c))
        invariant
            i <= c <= n,
            n == s@.len(),
            model::skip_ws(s@, i as int) == model::skip_ws(s@, c as int),
        decreases n - c,
    {
        proof {
            assert(model::skip_ws(s@, c as int) == model::skip_ws(s@, c + 1));
        }
        c = c + 1;
    }
    c
}

fn exec_scan_ident(s: &str, n: usize, i: usize) -> (r: usize)
    requires
        n == s@.len(),
        i <= n,
    ensures
        r as int == model::scan_ident(s@, i as int),
        i <= r <= n,
{
    let mut c = i;
    while c < n && is_ident_char_exec(s.get_char(c))
        invariant
            i <= c <= n,
            n == s@.len(),
            model::scan_ident(s@, i as int) == model::scan_ident(s@, c as int),
        decreases n - c,
    {
        proof {
            assert(model::scan_ident(s@, c as int) == model::scan_ident(s@, c + 1));
        }
        c = c + 1;
    }
    c
}

fn exec_find_open(s: &str, n: usize, i: usize) -> (r: usize)
    requires
        n == s@.len(),
        i <= n,
    ensures
        r as int == model::find_open(s@, i as int),
        i <= r <= n,
{
    let mut c = i;
    while c < n && c + 1 < n
        invariant
            i <= c <= n,
            n == s@.len(),
            model::find_open(s@, i as int) == model::find_open(s@, c as int),
        decreases n - c,
    {
        if s.get_char(c) == '{' && s.get_char(c + 1) == '{' {
            proof {
                assert(model::open_at(s@, c as int));
            }
            return c;
        }
        proof {
            assert(!model::open_at(s@, c as int));
            assert(model::find_open(s@, c as int) == model::find_open(s@, c + 1));
        }
        c = c + 1;
    }
    proof {
        assert(c + 2 > n);
        assert(model::find_open(s@, c as int) == n);
    }
    n
}

/// Whether `}}` stands at position `i`.
fn is_tag_end_at(s: &str, n: usize, i: usize) -> (r: bool)
    requires
        n == s@.len(),
        i <= n,
    ensures
        r == model::tag_end_at(s@, i as int),
{
    if i < n && i + 1 < n {
        s.get_char(i) == '}' && s.get_char(i + 1) == '}'
    } else {
        false
    }
}

/// Reads a `{{ name }}` variable tag standing at `i`.
fn exec_var_tag(s: &str, n: usize, i: usize) -> (r: Option<(String, usize)>)
    requires
        n == s@.len(),
        model::open_at(s@, i as int),
    ensures
        match r {
            Some(p) => model::var_tag(s@, i as int) == Some((p.0@, p.1 as int)) && i < p.1 <= n,
            None => model::var_tag(s@, i as int) is None,
        },
{
    let a = exec_skip_ws(s, n, i + 2);
    if a < n && is_ident_start_char(s.get_char(a)) {
        let b = exec_scan_ident(s, n, a);
        let c = exec_skip_ws(s, n, b);
        if is_tag_end_at(s, n, c) {
            let name = s.substring_char(a, b).to_owned();
            Some((name, c + 2))
        } else {
            None
        }
    } else {
        None
    }
}

/// Reads a `{{@ name }}` editable-region opening tag standing at `i`.
fn exec_open_tag(s: &str, n: usize, i: usize) -> (r: Option<(String, usize)>)
    requires
        n == s@.len(),
        model::edit_tag_at(s@, i as int),
    ensures
        match r {
            Some(p) => model::open_tag(s@, i as int) == Some((p.0@, p.1 as int)) && i < p.1 <= n,
            None => model::open_tag(s@, i as int) is None,
        },
{
    let a = exec_skip_ws(s, n, i + 3);
    if a < n && is_ident_start_char(s.get_char(a)) {
        let b = exec_scan_ident(s, n, a);
        let c = exec_skip_ws(s, n, b);
        if is_tag_end_at(s, n, c) {
            let name = s.substring_char(a, b).to_owned();
            Some((name, c + 2))
        } else {
            None
        }
    } else {
        None
    }
}

/// Reads a `{{@ / }}` editable-region closing tag standing at `i`.
fn exec_close_tag(s: &str, n: usize, i: usize) -> (r: Option<usize>)
    requires
        n == s@.len(),
        model::edit_tag_at(s@, i as int),
    ensures
        match r {
            Some(j) => model::close_tag(s@, i as int) == Some(j as int) && i < j <= n,
            None => model::close_tag(s@, i as int) is None,
        },
{
    let a = exec_skip_ws(s, n, i + 3);
    if a < n && s.get_char(a) == '/' {
        let c = exec_skip_ws(s, n, a + 1);
        if is_tag_end_at(s, n, c) {
            Some(c + 2)
        } else {
            None
        }
    } else {
        None
    }
}

/// One-based line number of character position `pos`.
fn exec_line_of(s: &str, n: usize, pos: usize) -> (r: usize)
    requires
        n == s@.len(),
        pos < n,
    ensures
        r as int == model::line_of(s@, pos as int),
{
    let mut cnt: usize = 0;
    let mut j: usize = 0;
    while j < pos
        invariant
            0 <= j <= pos,
            pos < n == s@.len(),
            cnt <= j,
            cnt as int == model::count_newlines(s@, 0, j as int),
        decreases pos - j,
    {
        if s.get_char(j) == '\n' {
            cnt = cnt + 1;
        }
        proof {
            assert(model::count_newlines(s@, 0, j + 1) == model::count_newlines(s@, 0, j as int)
                + if s@[j as int] == '\n' {
                1int
            } else {
                0int
            });
        }
        j = j + 1;
    }
    cnt + 1
}

fn mk_parse_error(s: &str, n: usize, pos: usize, kind: ParseErrorKind) -> (e: TemplateParseError)
    requires
        n == s@.len(),
        pos < n,
    ensures
        e.pos == pos,
        e.kind == kind,
        e.line as int == model::line_of(s@, pos as int),
{
    let line = exec_line_of(s, n, pos);
    TemplateParseError { pos, line, kind }
}

// ------------------------------------------------------------------
// The parser.
// ------------------------------------------------------------------
/// The set of names a sequence of owned strings holds.
pub open spec fn names_set(seen: Seq<String>) -> Set<Seq<char>>
    decreases seen.len(),
{
    if seen.len() == 0 {
        Set::empty()
    } else {
        names_set(seen.take(seen.len() - 1)).insert(seen.last()@)
    }
}

proof fn lemma_names_set_contains(seen: Seq<String>, k: Seq<char>)
    ensures
        names_set(seen).contains(k) <==> exists|i: int| 0 <= i < seen.len() && seen[i]@ == k,
    decreases seen.len(),
{
    if seen.len() > 0 {
        lemma_names_set_contains(seen.take(seen.len() - 1), k);
        if seen.last()@ == k {
            assert(seen[seen.len() - 1]@ == k);
        } else {
            if names_set(seen).contains(k) {
                let i = choose|i: int|
                    0 <= i < seen.len() - 1 && #[trigger] seen.take(seen.len() - 1)[i]@ == k;
                assert(seen[i]@ == k);
            }
            if exists|i: int| 0 <= i < seen.len() && seen[i]@ == k {
                let i = choose|i: int| 0 <= i < seen.len() && seen[i]@ == k;
                assert(i < seen.len() - 1);
                assert(seen.take(seen.len() - 1)[i]@ == k);
            }
        }
    }
}

fn seen_contains(seen: &Vec<String>, name: &str) -> (r: bool)
    ensures
        r == names_set(seen@).contains(name@),
{
    let mut i: usize = 0;
    while i < seen.len()
        invariant
            0 <= i <= seen.len(),
            forall|j: int| 0 <= j < i ==> seen@[j]@ != name@,
        decreases seen.len() - i,
    {
        if crate::blueprint::values::str_eq(seen[i].as_str(), name) {
            proof {
                lemma_names_set_contains(seen@, name@);
            }
            return true;
        }
        i = i + 1;
    }
    proof {
        lemma_names_set_contains(seen@, name@);
    }
    false
}

impl Template {
    /// Parses a template source.  The resulting element sequence is exactly
    /// what the grammar (`model::parse_template`) assigns to the source's
    /// characters; a rejected source is reported with the offending
    /// position, its line, and the reason.
    pub fn from_str(template_str: &str) -> (r: Result<Template, TemplateParseError>)
        ensures
            match r {
                Ok(t) => model::parse_template(template_str@) is Ok && t@ == model::parse_template(
                    template_str@,
                )->Ok_0,
                Err(e) => {
                    let pr = model::parse_template(template_str@);
                    &&& pr is Err
                    &&& e.pos as int == pr->Err_0.pos
                    &&& e.kind == pr->Err_0.kind
                    &&& e.line as int == model::line_of(template_str@, e.pos as int)
                },
            },
    {
        let s = template_str;
        let n = s.unicode_len();
        let mut elems: Vec<Element> = Vec::new();
        let mut seen: Vec<String> = Vec::new();
        let mut i: usize = 0;
        while i < n
            invariant
                n == s@.len(),
                s@ == template_str@,
                0 <= i <= n,
                forall|m: int| 0 <= m < elems@.len() ==> elems@[m].wf(),
                ({
                    let rest = model::parse_elems(s@, i as int, names_set(seen@));
                    let whole = model::parse_template(s@);
                    &&& (rest is Ok ==> whole is Ok && whole->Ok_0 == elements_view(elems@)
                        + rest->Ok_0)
                    &&& (rest is Err ==> whole == rest)
                }),
            decreases n - i,
        {
            let ghost st = names_set(seen@);
            let ghost sview = seen@;
            let ghost eview = elements_view(elems@);
            match parse_top_element(s, n, i, &seen) {
                Err((pos, kind)) => {
                    return Err(mk_parse_error(s, n, pos, kind));
                },
                Ok((el, j)) => {
                    match &el {
                        Element::Editable(name, _) => {
                            seen.push(name.clone());
                            proof {
                                assert(seen@.take(seen@.len() - 1) =~= sview);
                                assert(names_set(seen@) == next_seen(el, st));
                            }
                        },
                        _ => {
                            proof {
                                assert(names_set(seen@) == next_seen(el, st));
                            }
                        },
                    }
                    let ghost nv = el.node_view();
                    elems.push(el);
                    proof {
                        assert(elements_view(elems@) =~= eview + seq![nv]);
                        let rest = model::parse_elems(s@, j as int, names_set(seen@));
                        if rest is Ok {
                            assert(eview + (seq![nv] + rest->Ok_0) =~= (eview + seq![nv])
                                + rest->Ok_0);
                        }
                    }
                    i = j;
                },
            }
        }
        proof {
            assert(model::parse_elems(s@, i as int, names_set(seen@)) == Ok::<
                Seq<Node>,
                model::ParseFail,
            >(Seq::empty()));
            assert(elements_view(elems@) + Seq::<Node>::empty() =~= elements_view(elems@));
            assert(model::parse_template(s@) is Ok);
            assert(model::parse_template(s@)->Ok_0 == elements_view(elems@));
            model::lemma_parse_unique(s@, 0, Set::empty());
        }
        Ok(Template::from_elements(elems))
    }
}

/// Appends the value bound to `name`, or nothing when `name` is unbound.
fn append_value(out: &mut String, name: &String, values: &Values)
    ensures
        final(out)@ == old(out)@ + model::lookup(values@, name@),
{
    match values.get(name.as_str()) {
        Some(v) => {
            out.append(v.as_str());
        },
        None => {
            proof {
                assert(old(out)@ + model::lookup(values@, name@) =~= old(out)@);
            }
        },
    }
}

/// Appends the rendering of one element inside an editable region.
fn append_piece(out: &mut String, e: &Element, values: &Values)
    requires
        e.is_inner(),
    ensures
        final(out)@ == old(out)@ + model::render_piece(e.piece_view(), values@),
{
    match e {
        Element::RawText(t) => {
            out.append(t.as_str());
        },
        Element::Var(name) => {
            append_value(out, name, values);
        },
        Element::Editable(_, _) => {
            proof {
                assert(false);
            }
        },
    }
}

/// Appends the rendering of one top-level element.
fn append_node(out: &mut String, e: &Element, values: &Values)
    requires
        e.wf(),
    ensures
        final(out)@ == old(out)@ + model::render_node(e.node_view(), values@),
{
    match e {
        Element::RawText(t) => {
            out.append(t.as_str());
        },
        Element::Var(name) => {
            append_value(out, name, values);
        },
        Element::Editable(_, ch) => {
            let ghost cview = ch@.map_values(|el: Element| el.piece_view());
            let ghost base = out@;
            proof {
                assert(base + model::render_pieces(cview.take(0), values@) =~= base);
            }
            let mut k: usize = 0;
            while k < ch.len()
                invariant
                    0 <= k <= ch@.len(),
                    cview == ch@.map_values(|el: Element| el.piece_view()),
                    forall|m: int| 0 <= m < ch@.len() ==> ch@[m].is_inner(),
                    out@ == base + model::render_pieces(cview.take(k as int), values@),
                decreases ch@.len() - k,
            {
                append_piece(out, &ch[k], values);
                proof {
                    assert(cview.take(k + 1) =~= cview.take(k as int) + seq![cview[k as int]]);
                    model::lemma_render_pieces_concat(
                        cview.take(k as int),
                        seq![cview[k as int]],
                        values@,
                    );
                    model::lemma_render_pieces_one(cview[k as int], values@);
                    assert(cview[k as int] == ch@[k as int].piece_view());
                }
                k = k + 1;
            }
            proof {
                assert(cview.take(ch@.len() as int) =~= cview);
            }
        },
    }
}

impl Template {
    /// Renders the template against `values`: scaffold text verbatim, each
    /// variable replaced by its value (the empty string when unbound), and
    /// each editable region replaced by the rendering of its body.  Never
    /// fails on a well-formed template.
    pub fn render_to_string(&self, values: &Values) -> (r: Result<
        String,
        crate::templating::RenderError,
    >)
        ensures
            r is Ok,
            r->Ok_0@ == model::render_nodes(self@, values@),
    {
        proof {
            use_type_invariant(&*self);
        }
        let mut out = String::new();
        let ghost view = elements_view(self.elements@);
        proof {
            assert(view.take(0) =~= Seq::<Node>::empty());
        }
        let mut i: usize = 0;
        while i < self.elements.len()
            invariant
                view == elements_view(self.elements@),
                forall|m: int| 0 <= m < self.elements@.len() ==> self.elements@[m].wf(),
                0 <= i <= self.elements@.len(),
                out@ == model::render_nodes(view.take(i as int), values@),
            decreases self.elements@.len() - i,
        {
            append_node(&mut out, &self.elements[i], values);
            proof {
                assert(view.take(i + 1) =~= view.take(i as int) + seq![view[i as int]]);
                model::lemma_render_nodes_concat(view.take(i as int), seq![view[i as int]], values@);
                model::lemma_render_nodes_one(view[i as int], values@);
                assert(view[i as int] == self.elements@[i as int].node_view());
            }
            i = i + 1;
        }
        proof {
            assert(view.take(self.elements@.len() as int) =~= view);
        }
        Ok(out)
    }
}

/// The `tmplpp` templating engine: templates mixing scaffold text,
/// `{{ name }}` variable references and `{{@ name }}`…`{{@ / }}` editable
/// regions.
#[derive(Debug)]
pub struct Tmplpp;

impl Tmplpp {
    pub fn new() -> (r: Tmplpp) {
        Tmplpp
    }

    /// Parses `template_str` and renders it against `values` in one step.
    /// Fails exactly when the source does not parse, and then carries the
    /// parse failure — position, line and reason — in the error.
    pub fn render_template(&self, template_str: &str, values: Values) -> (r: Result<
        String,
        crate::templating::RenderError,
    >)
        ensures
            match r {
                Ok(s) => model::parse_template(template_str@) is Ok && s@ == model::render_nodes(
                    model::parse_template(template_str@)->Ok_0,
                    values@,
                ),
                Err(e) => {
                    let pr = model::parse_template(template_str@);
                    &&& pr is Err
                    &&& e.spec_parse_error() is Some
                    &&& e.spec_parse_error()->Some_0.pos as int == pr->Err_0.pos
                    &&& e.spec_parse_error()->Some_0.kind == pr->Err_0.kind
                    &&& e.spec_parse_error()->Some_0.line as int == model::line_of(
                        template_str@,
                        pr->Err_0.pos,
                    )
                },
            },
    {
        match Template::from_str(template_str) {
            Ok(t) => t.render_to_string(&values),
            Err(pe) => Err(
                crate::templating::RenderError::from_parse(
                    "template parsing failed".to_owned(),
                    pe,
                ),
            ),
        }
    }
}

impl crate::templating::TemplatingEngine for Tmplpp {
    fn render_template(&self, template: &str, values: Values) -> Result<
        String,
        crate::templating::RenderError,
    > {
        Tmplpp::render_template(self, template, values)
    }
}

/// The name/capture pairs a matcher run produces, as abstract sequences.
pub open spec fn caps_pairs_view(v: Seq<(String, String)>) -> Seq<(Seq<char>, Seq<char>)> {
    v.map_values(|p: (String, String)| (p.0@, p.1@))
}

/// Matches the elements from `ei` on against the output text from `oi` on.
/// Returns the captures of the editable regions (greedy, in region order),
/// or `None` when the text does not fit the template.
fn match_tail(
    elems: &Vec<Element>,
    ei: usize,
    values: &Values,
    out: &str,
    on: usize,
    oi: usize,
) -> (r: Option<Vec<(String, String)>>)
    requires
        on == out@.len(),
        oi <= on,
        ei <= elems@.len(),
    ensures
        ({
            let ns = elements_view(elems@).skip(ei as int);
            let o = out@.skip(oi as int);
            match r {
                Some(caps) => model::matches_tail(ns, values@, o) && caps_pairs_view(caps@)
                    == model::caps_list(ns, values@, o),
                None => !model::matches_tail(ns, values@, o),
            }
        }),
    decreases elems@.len() - ei, 1int,
{
    let ghost ns = elements_view(elems@).skip(ei as int);
    let ghost o = out@.skip(oi as int);
    if ei == elems.len() {
        proof {
            assert(ns =~= Seq::<Node>::empty());
        }
        if oi == on {
            let caps: Vec<(String, String)> = Vec::new();
            proof {
                assert(o.len() == 0);
                assert(caps_pairs_view(caps@) =~= model::caps_list(ns, values@, o));
            }
            Some(caps)
        } else {
            proof {
                assert(o.len() != 0);
            }
            None
        }
    } else {
        proof {
            assert(ns[0] == elements_view(elems@)[ei as int]);
            assert(ns[0] == elems@[ei as int].node_view());
        }
        match &elems[ei] {
            Element::RawText(t) => {
                proof {
                    assert(model::node_literal(ns[0], values@) == t@);
                }
                match_literal_then(elems, ei, values, out, on, oi, t.as_str())
            },
            Element::Var(nm) => {
                match values.get(nm.as_str()) {
                    Some(v) => {
                        proof {
                            assert(model::node_literal(ns[0], values@) == v@);
                        }
                        match_literal_then(elems, ei, values, out, on, oi, v.as_str())
                    },
                    None => {
                        let empty_lit = "";
                        proof {
                            reveal_strlit("");
                            assert(empty_lit@ =~= Seq::<char>::empty());
                            assert(model::node_literal(ns[0], values@) == empty_lit@);
                        }
                        match_literal_then(elems, ei, values, out, on, oi, empty_lit)
                    },
                }
            },
            Element::Editable(name, _) => {
                proof {
                    assert(ns[0] is Edit);
                    assert(ns.skip(1) =~= elements_view(elems@).skip(ei + 1));
                }
                let ne = elems.len();
                let mut k: usize = on - oi;
                loop
                    invariant
                        on == out@.len(),
                        oi <= on,
                        ne == elems@.len(),
                        ei < ne,
                        k <= on - oi,
                        ns == elements_view(elems@).skip(ei as int),
                        o == out@.skip(oi as int),
                        ns[0] == elems@[ei as int].node_view(),
                        ns[0] is Edit,
                        ns[0]->Edit_0 == name@,
                        ns.skip(1) == elements_view(elems@).skip(ei + 1),
                        forall|k2: int|
                            k < k2 <= on - oi ==> !model::matches_tail(
                                elements_view(elems@).skip(ei + 1),
                                values@,
                                #[trigger] out@.skip(oi + k2),
                            ),
                    decreases k,
                {
                    match match_tail(elems, ei + 1, values, out, on, oi + k) {
                        Some(mut caps) => {
                            proof {
                                assert forall|k2: int| 0 <= k2 <= o.len() implies out@.skip(
                                    oi + k2,
                                ) =~= o.skip(k2) by {}
                                assert(model::matches_tail(ns.skip(1), values@, o.skip(k as int)));
                                assert forall|k2: int|
                                    k < k2 <= o.len() implies !model::matches_tail(
                                    ns.skip(1),
                                    values@,
                                    o.skip(k2),
                                ) by {
                                    assert(out@.skip(oi + k2) =~= o.skip(k2));
                                }
                                model::lemma_greedy_k_pin(
                                    ns.skip(1),
                                    values@,
                                    o,
                                    o.len() as int,
                                    k as int,
                                );
                            }
                            let cap = out.substring_char(oi, oi + k).to_owned();
                            let ghost caps0 = caps@;
                            let ghost capv = cap@;
                            caps.insert(0, (name.clone(), cap));
                            proof {
                                let p = caps@[0];
                                assert(p.0@ == name@ && p.1@ == capv);
                                assert(caps@ =~= seq![p] + caps0);
                                assert(caps_pairs_view(caps@) =~= seq![(name@, capv)]
                                    + caps_pairs_view(caps0));
                                assert(capv =~= o.take(k as int));
                                assert(model::caps_list(ns, values@, o) == seq![
                                    (name@, o.take(k as int)),
                                ] + model::caps_list(ns.skip(1), values@, o.skip(k as int)));
                                assert(o.skip(k as int) =~= out@.skip(oi + k));
                                assert(caps_pairs_view(caps@) =~= model::caps_list(
                                    ns,
                                    values@,
                                    o,
                                ));
                                assert(model::matches_tail(ns, values@, o)) by {
                                    assert(0 <= k as int <= o.len() && model::matches_tail(
                                        ns.skip(1),
                                        values@,
                                        o.skip(k as int),
                                    ));
                                }
                            }
                            return Some(caps);
                        },
                        None => {
                            if k == 0 {
                                proof {
                                    assert forall|k2: int|
                                        0 <= k2 <= o.len() implies !model::matches_tail(
                                        ns.skip(1),
                                        values@,
                                        o.skip(k2),
                                    ) by {
                                        assert(out@.skip(oi + k2) =~= o.skip(k2));
                                    }
                                    assert(!model::matches_tail(ns, values@, o));
                                }
                                return None;
                            }
                            k = k - 1;
                        },
                    }
                }
            },
        }
    }
}

/// Matches one literal element (scaffold text or a substituted variable
/// value) at `ei` and then the remaining elements.
fn match_literal_then(
    elems: &Vec<Element>,
    ei: usize,
    values: &Values,
    out: &str,
    on: usize,
    oi: usize,
    lit: &str,
) -> (r: Option<Vec<(String, String)>>)
    requires
        on == out@.len(),
        oi <= on,
        ei < elems@.len(),
        model::node_literal(elements_view(elems@).skip(ei as int)[0], values@) == lit@,
        !(elements_view(elems@).skip(ei as int)[0] is Edit),
    ensures
        ({
            let ns = elements_view(elems@).skip(ei as int);
            let o = out@.skip(oi as int);
            match r {
                Some(caps) => model::matches_tail(ns, values@, o) && caps_pairs_view(caps@)
                    == model::caps_list(ns, values@, o),
                None => !model::matches_tail(ns, values@, o),
            }
        }),
    decreases elems@.len() - ei, 0int,
{
    let ghost ns = elements_view(elems@).skip(ei as int);
    let ghost o = out@.skip(oi as int);
    let ne = elems.len();
    let ll = lit.unicode_len();
    if ll > on - oi {
        proof {
            assert(o.len() < lit@.len());
            assert(!model::matches_tail(ns, values@, o));
        }
        return None;
    }
    let mut m: usize = 0;
    while m < ll
        invariant
            0 <= m <= ll,
            ll == lit@.len(),
            on == out@.len(),
            oi + ll <= on,
            ns == elements_view(elems@).skip(ei as int),
            o == out@.skip(oi as int),
            model::node_literal(ns[0], values@) == lit@,
            !(ns[0] is Edit),
            ns.len() > 0,
            forall|q: int| 0 <= q < m ==> lit@[q] == out@[oi + q],
        decreases ll - m,
    {
        if out.get_char(oi + m) != lit.get_char(m) {
            proof {
                assert(o.take(ll as int)[m as int] == out@[oi + m]);
                assert(o.take(ll as int) != lit@);
                assert(!model::matches_tail(ns, values@, o));
            }
            return None;
        }
        m = m + 1;
    }
    proof {
        assert forall|q: int| 0 <= q < ll implies o.take(ll as int)[q] == lit@[q] by {
            assert(o.take(ll as int)[q] == out@[oi + q]);
        }
        assert(o.take(ll as int) =~= lit@);
    }
    let r2 = match_tail(elems, ei + 1, values, out, on, oi + ll);
    proof {
        assert(o.skip(ll as int) =~= out@.skip(oi + ll));
        assert(ns.skip(1) =~= elements_view(elems@).skip(ei + 1));
        if r2 is Some {
            assert(model::matches_tail(ns, values@, o));
            assert(model::caps_list(ns, values@, o) == model::caps_list(
                ns.skip(1),
                values@,
                o.skip(ll as int),
            ));
        } else {
            assert(!model::matches_tail(ns, values@, o));
        }
    }
    r2
}

impl Template {
    /// Whether `output` is text this template could have produced for
    /// `values` with only its editable regions changed: scaffold text and
    /// substituted values must appear verbatim, in order, covering the
    /// whole of `output`.
    pub fn validate_generated_output(&self, values: &Values, output: &str) -> (r: bool)
        ensures
            r == model::output_matches(self@, values@, output@),
    {
        proof {
            use_type_invariant(&*self);
        }
        let n = output.unicode_len();
        let caps = match_tail(&self.elements, 0, values, output, n, 0);
        proof {
            assert(elements_view(self.elements@).skip(0) =~= self@);
            assert(output@.skip(0) =~= output@);
        }
        caps.is_some()
    }
}

/// Why an upgrade was refused.
#[derive(Debug)]
pub enum UpgradeError {
    /// The current output no longer matches the template that generated it:
    /// it was edited outside its editable regions, or belongs to another
    /// template altogether.
    OutputMismatch,
    /// The new template declares an editable region whose name the old
    /// template does not know, so there is no capture to carry forward.
    UnknownRegion(String),
}

/// The capture bound to `name`: the first matching entry wins.
fn find_cap<'a>(caps: &'a Vec<(String, String)>, name: &str) -> (r: Option<&'a String>)
    ensures
        match r {
            Some(v) => model::list_to_map(caps_pairs_view(caps@)).dom().contains(name@) && v@
                == model::list_to_map(caps_pairs_view(caps@))[name@],
            None => !model::list_to_map(caps_pairs_view(caps@)).dom().contains(name@),
        },
{
    let mut i: usize = 0;
    while i < caps.len()
        invariant
            0 <= i <= caps@.len(),
            forall|j: int| 0 <= j < i ==> caps@[j].0@ != name@,
        decreases caps@.len() - i,
    {
        if crate::blueprint::values::str_eq(caps[i].0.as_str(), name) {
            proof {
                assert(caps_pairs_view(caps@)[i as int] == (caps@[i as int].0@, caps@[i as int].1@));
                assert(forall|j: int|
                    0 <= j < i ==> #[trigger] caps_pairs_view(caps@)[j].0 == caps@[j].0@);
                model::lemma_list_to_map_first(caps_pairs_view(caps@), name@, i as int);
            }
            return Some(&caps[i].1);
        }
        i = i + 1;
    }
    proof {
        assert(forall|j: int|
            0 <= j < caps@.len() ==> #[trigger] caps_pairs_view(caps@)[j].0 == caps@[j].0@);
        model::lemma_list_to_map_none(caps_pairs_view(caps@), name@);
    }
    None
}

impl Template {
    /// Upgrades `output` — text generated from this template and possibly
    /// edited inside its editable regions — to the shape of `new_template`:
    /// the new template's scaffold text, values substituted afresh, and each
    /// editable region carrying the text captured from `output` verbatim.
    /// Fails when `output` has diverged from this template, or when the new
    /// template declares an editable region this one does not have.
    pub fn upgrade_to(&self, new_template: &Template, values: &Values, output: &str) -> (r: Result<
        String,
        UpgradeError,
    >)
        ensures
            ({
                let old_ns = self@;
                let new_ns = new_template@;
                match r {
                    Ok(res) => {
                        &&& model::output_matches(old_ns, values@, output@)
                        &&& model::edit_names(new_ns).subset_of(model::edit_names(old_ns))
                        &&& res@ == model::upgrade_result(old_ns, new_ns, values@, output@)
                    },
                    Err(e) => match e {
                        UpgradeError::OutputMismatch => !model::output_matches(
                            old_ns,
                            values@,
                            output@,
                        ),
                        UpgradeError::UnknownRegion(nm) => {
                            &&& model::output_matches(old_ns, values@, output@)
                            &&& !model::edit_names(new_ns).subset_of(model::edit_names(old_ns))
                            &&& nm@ == model::first_unknown_name(
                                new_ns,
                                model::edit_names(old_ns),
                            )
                        },
                    },
                }
            }),
    {
        proof {
            use_type_invariant(&*self);
            use_type_invariant(&*new_template);
        }
        let n = output.unicode_len();
        let caps_opt = match_tail(&self.elements, 0, values, output, n, 0);
        proof {
            assert(elements_view(self.elements@).skip(0) =~= self@);
            assert(output@.skip(0) =~= output@);
        }
        let caps = match caps_opt {
            Some(c) => c,
            None => {
                return Err(UpgradeError::OutputMismatch);
            },
        };
        let ghost capsmap = model::captures(self@, values@, output@);
        let ghost old_names = model::edit_names(self@);
        proof {
            model::lemma_captures_dom(self@, values@, output@);
            assert(model::list_to_map(caps_pairs_view(caps@)) == capsmap);
        }
        let mut out = String::new();
        let ghost nview = elements_view(new_template.elements@);
        proof {
            assert(nview.take(0) =~= Seq::<Node>::empty());
            assert(nview =~= new_template@);
        }
        proof {
            assert(nview.skip(0) =~= nview);
        }
        let mut i: usize = 0;
        while i < new_template.elements.len()
            invariant
                0 <= i <= new_template.elements@.len(),
                nview == elements_view(new_template.elements@),
                model::output_matches(self@, values@, output@),
                old_names == model::edit_names(self@),
                model::list_to_map(caps_pairs_view(caps@)) == capsmap,
                capsmap.dom() == old_names,
                out@ == model::rebuild(nview.take(i as int), values@, capsmap),
                forall|m: int|
                    0 <= m < i && #[trigger] nview[m] is Edit ==> capsmap.dom().contains(
                        nview[m]->Edit_0,
                    ),
                model::first_unknown_name(nview, old_names) == model::first_unknown_name(
                    nview.skip(i as int),
                    old_names,
                ),
            decreases new_template.elements@.len() - i,
        {
            let ghost nd = nview[i as int];
            proof {
                assert(nd == new_template.elements@[i as int].node_view());
                assert(nview.skip(i as int)[0] == nd);
                assert(nview.skip(i as int).skip(1) =~= nview.skip(i + 1));
            }
            match &new_template.elements[i] {
                Element::RawText(t) => {
                    out.append(t.as_str());
                },
                Element::Var(nm) => {
                    append_value(&mut out, nm, values);
                },
                Element::Editable(name, _) => {
                    match find_cap(&caps, name.as_str()) {
                        Some(v) => {
                            out.append(v.as_str());
                        },
                        None => {
                            proof {
                                model::lemma_edit_names_member(nview, i as int);
                                assert(model::first_unknown_name(nview.skip(i as int), old_names)
                                    == name@);
                            }
                            return Err(UpgradeError::UnknownRegion(name.clone()));
                        },
                    }
                },
            }
            proof {
                assert(nview.take(i + 1) =~= nview.take(i as int) + seq![nd]);
                model::lemma_rebuild_concat(nview.take(i as int), seq![nd], values@, capsmap);
                model::lemma_rebuild_one(nd, values@, capsmap);
            }
            i = i + 1;
        }
        proof {
            assert(nview.take(new_template.elements@.len() as int) =~= nview);
            assert forall|m: int|
                0 <= m < nview.len() && nview[m] is Edit implies old_names.contains(
                #[trigger] nview[m]->Edit_0,
            ) by {}
            model::lemma_edit_names_all(nview, old_names);
        }
        Ok(out)
    }
}

/// The editable-name set after one parsed element: an editable region adds
/// its name, any other element leaves the set unchanged.
pub open spec fn next_seen(el: Element, st: Set<Seq<char>>) -> Set<Seq<char>> {
    match el {
        Element::Editable(name, _) => st.insert(name@),
        _ => st,
    }
}

/// Parses the single top-level element standing at `i`, given the
/// editable-region names `seen` so far.
fn parse_top_element(s: &str, n: usize, i: usize, seen: &Vec<String>) -> (r: Result<
    (Element, usize),
    (usize, ParseErrorKind),
>)
    requires
        n == s@.len(),
        i < n,
    ensures
        match r {
            Ok(p) => {
                let st = names_set(seen@);
                let rest = model::parse_elems(s@, p.1 as int, next_seen(p.0, st));
                &&& p.0.wf()
                &&& i < p.1 <= n
                &&& model::parse_elems(s@, i as int, st) == (match rest {
                    Result::<Seq<Node>, model::ParseFail>::Ok(r2) => Result::<
                        Seq<Node>,
                        model::ParseFail,
                    >::Ok(seq![p.0.node_view()] + r2),
                    Result::<Seq<Node>, model::ParseFail>::Err(f) => Result::<
                        Seq<Node>,
                        model::ParseFail,
                    >::Err(f),
                })
            },
            Err((pos, kind)) => {
                let st = names_set(seen@);
                &&& model::parse_elems(s@, i as int, st) == Result::<
                    Seq<Node>,
                    model::ParseFail,
                >::Err(model::ParseFail { pos: pos as int, kind: kind })
                &&& pos < n
            },
        },
{
    let ghost st = names_set(seen@);
    if is_open_at(s, n, i) {
        if is_edit_tag_at(s, n, i) {
            match exec_close_tag(s, n, i) {
                Some(_) => Err((i, ParseErrorKind::UnexpectedCloseTag)),
                None => match exec_open_tag(s, n, i) {
                    None => Err((i, ParseErrorKind::UnclosedTag)),
                    Some((name, j0)) => {
                        if seen_contains(seen, name.as_str()) {
                            return Err((i, ParseErrorKind::DuplicateEditable));
                        }
                        let b = if j0 < n && s.get_char(j0) == '\n' {
                            j0 + 1
                        } else {
                            j0
                        };
                        match parse_editable_body(s, n, b, i) {
                            Err(e) => Err(e),
                            Ok((children, j)) => {
                                let ghost nm = name@;
                                let ghost cview = children@.map_values(
                                    |e: Element| e.piece_view(),
                                );
                                let el = Element::Editable(name, children);
                                proof {
                                    assert(el.node_view() == Node::Edit(nm, cview));
                                    assert(next_seen(el, st) == st.insert(nm));
                                }
                                Ok((el, j))
                            },
                        }
                    },
                },
            }
        } else {
            proof {
                model::lemma_var_tag_bounds(s@, i as int);
            }
            match exec_var_tag(s, n, i) {
                None => Err((i, ParseErrorKind::UnclosedTag)),
                Some((name, j)) => Ok((Element::Var(name), j)),
            }
        }
    } else {
        let j = exec_find_open(s, n, i);
        proof {
            assert(i < j && j <= n) by {
                model::lemma_find_open_bounds(s@, i as int);
                assert(!model::open_at(s@, i as int));
                assert(model::find_open(s@, i as int) != i as int);
            }
        }
        let text = s.substring_char(i, j).to_owned();
        Ok((Element::RawText(text), j))
    }
}

/// Parses the body of an editable region whose opening tag stands at
/// `open_pos`, starting at `b` (after the opening tag and the optional
/// stripped newline), up to and including the closing tag.
fn parse_editable_body(s: &str, n: usize, b: usize, open_pos: usize) -> (r: Result<
    (Vec<Element>, usize),
    (usize, ParseErrorKind),
>)
    requires
        n == s@.len(),
        b <= n,
        open_pos < n,
    ensures
        match r {
            Ok((ch, j)) => {
                let pr = model::parse_inner(s@, b as int, open_pos as int);
                &&& pr is Ok
                &&& ch@.map_values(|e: Element| e.piece_view()) == pr->Ok_0.0
                &&& forall|m: int| 0 <= m < ch@.len() ==> ch@[m].is_inner()
                &&& j as int == pr->Ok_0.1
                &&& b < j <= n
            },
            Err((pos, kind)) => {
                let pr = model::parse_inner(s@, b as int, open_pos as int);
                &&& pr is Err
                &&& pos as int == pr->Err_0.pos
                &&& kind == pr->Err_0.kind
                &&& pos < n
            },
        },
{
    let ghost op = open_pos as int;
    let mut pieces: Vec<Element> = Vec::new();
    let mut cur: usize = b;
    loop
        invariant
            n == s@.len(),
            b <= cur <= n,
            open_pos < n,
            op == open_pos as int,
            forall|m: int| 0 <= m < pieces@.len() ==> pieces@[m].is_inner(),
            ({
                let rest = model::parse_inner(s@, cur as int, op);
                let whole = model::parse_inner(s@, b as int, op);
                &&& (rest is Ok ==> whole is Ok && whole->Ok_0.0 == pieces@.map_values(
                    |e: Element| e.piece_view(),
                ) + rest->Ok_0.0 && whole->Ok_0.1 == rest->Ok_0.1)
                &&& (rest is Err ==> whole == rest)
            }),
        decreases n - cur,
    {
        let ghost pview = pieces@.map_values(|e: Element| e.piece_view());
        if cur >= n {
            proof {
                assert(model::parse_inner(s@, cur as int, op) == Err::<
                    (Seq<Piece>, int),
                    model::ParseFail,
                >(model::ParseFail { pos: op, kind: ParseErrorKind::UnclosedEditable }));
            }
            return Err((open_pos, ParseErrorKind::UnclosedEditable));
        }
        if is_open_at(s, n, cur) {
            if is_edit_tag_at(s, n, cur) {
                match exec_close_tag(s, n, cur) {
                    Some(j) => {
                        proof {
                            assert(model::parse_inner(s@, cur as int, op) == Ok::<
                                (Seq<Piece>, int),
                                model::ParseFail,
                            >((Seq::empty(), j as int)));
                            assert(pview + Seq::<Piece>::empty() =~= pview);
                        }
                        return Ok((pieces, j));
                    },
                    None => {
                        proof {
                            model::lemma_open_tag_bounds(s@, cur as int);
                        }
                        match exec_open_tag(s, n, cur) {
                            Some(_) => {
                                proof {
                                    assert(model::parse_inner(s@, cur as int, op) == Err::<
                                        (Seq<Piece>, int),
                                        model::ParseFail,
                                    >(
                                        model::ParseFail {
                                            pos: cur as int,
                                            kind: ParseErrorKind::NestedEditable,
                                        },
                                    ));
                                }
                                return Err((cur, ParseErrorKind::NestedEditable));
                            },
                            None => {
                                proof {
                                    assert(model::parse_inner(s@, cur as int, op) == Err::<
                                        (Seq<Piece>, int),
                                        model::ParseFail,
                                    >(
                                        model::ParseFail {
                                            pos: cur as int,
                                            kind: ParseErrorKind::UnclosedTag,
                                        },
                                    ));
                                }
                                return Err((cur, ParseErrorKind::UnclosedTag));
                            },
                        }
                    },
                }
            } else {
                match exec_var_tag(s, n, cur) {
                    Some((name, j)) => {
                        proof {
                            let rest = model::parse_inner(s@, j as int, op);
                            let here = model::parse_inner(s@, cur as int, op);
                            assert(here is Ok ==> rest is Ok && here->Ok_0.0 == seq![
                                Piece::Var(name@),
                            ] + rest->Ok_0.0);
                            assert(here is Err ==> here == rest);
                        }
                        let ghost nm = name@;
                        pieces.push(Element::Var(name));
                        proof {
                            assert(pieces@.map_values(|e: Element| e.piece_view()) =~= pview
                                + seq![Piece::Var(nm)]);
                            assert(pview + (seq![Piece::Var(nm)] + model::parse_inner(
                                s@,
                                j as int,
                                op,
                            )->Ok_0.0) =~= (pview + seq![Piece::Var(nm)]) + model::parse_inner(
                                s@,
                                j as int,
                                op,
                            )->Ok_0.0);
                        }
                        cur = j;
                    },
                    None => {
                        proof {
                            assert(model::parse_inner(s@, cur as int, op) == Err::<
                                (Seq<Piece>, int),
                                model::ParseFail,
                            >(model::ParseFail { pos: cur as int, kind: ParseErrorKind::UnclosedTag },
                            ));
                        }
                        return Err((cur, ParseErrorKind::UnclosedTag));
                    },
                }
            }
        } else {
            let j = exec_find_open(s, n, cur);
            proof {
                assert(cur < j && j <= n) by {
                    model::lemma_find_open_bounds(s@, cur as int);
                    assert(!model::open_at(s@, cur as int));
                    assert(model::find_open(s@, cur as int) != cur as int);
                }
            }
            if j >= n {
                proof {
                    assert(model::parse_inner(s@, cur as int, op) == Err::<
                        (Seq<Piece>, int),
                        model::ParseFail,
                    >(model::ParseFail { pos: op, kind: ParseErrorKind::UnclosedEditable }));
                }
                return Err((open_pos, ParseErrorKind::UnclosedEditable));
            }
            let is_close_here = if is_edit_tag_at(s, n, j) {
                exec_close_tag(s, n, j)
            } else {
                None
            };
            match is_close_here {
                Some(e) => {
                    let raw_end = if s.get_char(j - 1) == '\n' {
                        j - 1
                    } else {
                        j
                    };
                    if raw_end > cur {
                        let text = s.substring_char(cur, raw_end).to_owned();
                        let ghost tv = text@;
                        pieces.push(Element::RawText(text));
                        proof {
                            assert(pieces@.map_values(|e: Element| e.piece_view()) =~= pview
                                + seq![Piece::Raw(tv)]);
                            assert(pview + seq![Piece::Raw(tv)] =~= pview + (seq![
                                Piece::Raw(tv),
                            ] + Seq::<Piece>::empty()));
                        }
                        return Ok((pieces, e));
                    } else {
                        proof {
                            assert(pview + Seq::<Piece>::empty() =~= pview);
                        }
                        return Ok((pieces, e));
                    }
                },
                None => {
                    let text = s.substring_char(cur, j).to_owned();
                    let ghost tv = text@;
                    proof {
                        let rest = model::parse_inner(s@, j as int, op);
                        let here = model::parse_inner(s@, cur as int, op);
                        assert(here is Ok ==> rest is Ok && here->Ok_0.0 == seq![Piece::Raw(tv)]
                            + rest->Ok_0.0);
                        assert(here is Err ==> here == rest);
                    }
                    pieces.push(Element::RawText(text));
                    proof {
                        assert(pieces@.map_values(|e: Element| e.piece_view()) =~= pview + seq![
                            Piece::Raw(tv),
                        ]);
                        assert(pview + (seq![Piece::Raw(tv)] + model::parse_inner(
                            s@,
                            j as int,
                            op,
                        )->Ok_0.0) =~= (pview + seq![Piece::Raw(tv)]) + model::parse_inner(
                            s@,
                            j as int,
                            op,
                        )->Ok_0.0);
                    }
                    cur = j;
                },
            }
        }
    }
}

} // verus!
