//! The laws the template engine obeys, proved over the same model that the
//! engine's contracts are stated in: rendering always validates, validation
//! accepts exactly the outputs that differ from a rendering only inside
//! editable regions (and so rejects text missing any of the template's
//! fixed runs), upgrading against an unchanged template is a no-op, and
//! rendering leaves no template markup behind.

use vstd::prelude::*;

use crate::templating::model::{
    caps_list, captures, edit_names, ends_brace, greedy_k, lemma_parse_output_clean, list_to_map,
    lookup, matches_tail, no_open_in, node_clean, node_literal, node_no_tail, occurs_in, open_at,
    output_matches, parse_template, pieces_clean, rebuild, render_node, render_nodes, render_piece,
    render_pieces, scaffold_len, unique_names, upgrade_result, vals_clean, Node, Piece, Vals,
};

verus! {

/// **Validate-after-render**: what `render` produces for a template and a
/// values mapping always matches that template under the same mapping.
pub proof fn lemma_validate_after_render(ns: Seq<Node>, vals: Vals)
    ensures
        output_matches(ns, vals, render_nodes(ns, vals)),
    decreases ns.len(),
{
    let out = render_nodes(ns, vals);
    if ns.len() == 0 {
    } else {
        let rest = render_nodes(ns.skip(1), vals);
        lemma_validate_after_render(ns.skip(1), vals);
        match ns[0] {
            Node::Edit(_, ps) => {
                let k = render_pieces(ps, vals).len() as int;
                assert(out == render_pieces(ps, vals) + rest);
                assert(out.skip(k) =~= rest);
                assert(0 <= k <= out.len() && matches_tail(ns.skip(1), vals, out.skip(k)));
            },
            _ => {
                let lit = node_literal(ns[0], vals);
                assert(out == lit + rest);
                assert(out.take(lit.len() as int) =~= lit);
                assert(out.skip(lit.len() as int) =~= rest);
            },
        }
    }
}

/// **Edits inside editable regions validate**: any output assembled from the
/// template's scaffold and values, with arbitrary text in each editable
/// region, matches the template.  Together with
/// `lemma_match_is_rebuild` this says validation accepts exactly the
/// outputs that differ from a rendering only inside editable regions.
pub proof fn lemma_rebuild_matches(ns: Seq<Node>, vals: Vals, caps: Map<Seq<char>, Seq<char>>)
    ensures
        output_matches(ns, vals, rebuild(ns, vals, caps)),
    decreases ns.len(),
{
    let out = rebuild(ns, vals, caps);
    if ns.len() == 0 {
    } else {
        let rest = rebuild(ns.skip(1), vals, caps);
        lemma_rebuild_matches(ns.skip(1), vals, caps);
        match ns[0] {
            Node::Edit(name, _) => {
                let cap = if caps.dom().contains(name) {
                    caps[name]
                } else {
                    Seq::empty()
                };
                let k = cap.len() as int;
                assert(out == cap + rest);
                assert(out.skip(k) =~= rest);
                assert(0 <= k <= out.len() && matches_tail(ns.skip(1), vals, out.skip(k)));
            },
            _ => {
                let lit = node_literal(ns[0], vals);
                assert(out == lit + rest);
                assert(out.take(lit.len() as int) =~= lit);
                assert(out.skip(lit.len() as int) =~= rest);
            },
        }
    }
}

/// A matching tail has a greedy span: some prefix can be given to the
/// editable region so that the rest still matches.
proof fn lemma_greedy_k_some(ns: Seq<Node>, vals: Vals, out: Seq<char>, bound: int)
    requires
        0 <= bound,
        exists|k0: int| 0 <= k0 <= bound && matches_tail(ns, vals, #[trigger] out.skip(k0)),
    ensures
        0 <= greedy_k(ns, vals, out, bound) <= bound,
        matches_tail(ns, vals, out.skip(greedy_k(ns, vals, out, bound))),
    decreases bound,
{
    if matches_tail(ns, vals, out.skip(bound)) {
    } else {
        let k0 = choose|k0: int|
            0 <= k0 <= bound && matches_tail(ns, vals, #[trigger] out.skip(k0));
        assert(k0 < bound);
        assert(bound > 0);
        lemma_greedy_k_some(ns, vals, out, bound - 1);
    }
}

/// **Matching outputs are rebuilds of their captures**: an output that
/// matches a template with uniquely named editable regions is reassembled
/// exactly by `rebuild` from any capture map that agrees with the match's
/// captures on the template's region names.
proof fn lemma_rebuild_agrees(ns: Seq<Node>, vals: Vals, out: Seq<char>, m: Map<
    Seq<char>,
    Seq<char>,
>)
    requires
        matches_tail(ns, vals, out),
        unique_names(ns),
        forall|nm: Seq<char>|
            #[trigger] edit_names(ns).contains(nm) ==> m.dom().contains(nm) && m[nm] == captures(
                ns,
                vals,
                out,
            )[nm],
    ensures
        rebuild(ns, vals, m) == out,
    decreases ns.len(),
{
    if ns.len() == 0 {
        assert(rebuild(ns, vals, m) =~= out);
    } else {
        match ns[0] {
            Node::Edit(name, _) => {
                lemma_greedy_k_some(ns.skip(1), vals, out, out.len() as int);
                let k = greedy_k(ns.skip(1), vals, out, out.len() as int);
                let inner = caps_list(ns.skip(1), vals, out.skip(k));
                assert(caps_list(ns, vals, out) == seq![(name, out.take(k))] + inner);
                assert(caps_list(ns, vals, out).skip(1) =~= inner);
                assert(caps_list(ns, vals, out)[0] == (name, out.take(k)));
                assert(captures(ns, vals, out) == list_to_map(inner).insert(name, out.take(k)));
                assert(edit_names(ns).contains(name));
                assert(m.dom().contains(name));
                assert(m[name] == out.take(k));
                assert forall|nm2: Seq<char>|
                    #[trigger] edit_names(ns.skip(1)).contains(nm2) implies m.dom().contains(nm2)
                    && m[nm2] == captures(ns.skip(1), vals, out.skip(k))[nm2] by {
                    assert(edit_names(ns).contains(nm2));
                    assert(nm2 != name);
                    assert(m[nm2] == captures(ns, vals, out)[nm2]);
                    assert(captures(ns, vals, out)[nm2] == list_to_map(inner)[nm2]);
                    assert(captures(ns.skip(1), vals, out.skip(k)) == list_to_map(inner));
                }
                lemma_rebuild_agrees(ns.skip(1), vals, out.skip(k), m);
                assert(rebuild(ns, vals, m) == out.take(k) + out.skip(k));
                assert(out.take(k) + out.skip(k) =~= out);
            },
            _ => {
                let lit = node_literal(ns[0], vals);
                let l = lit.len() as int;
                assert(caps_list(ns, vals, out) == caps_list(ns.skip(1), vals, out.skip(l)));
                assert(edit_names(ns) =~= edit_names(ns.skip(1)));
                lemma_rebuild_agrees(ns.skip(1), vals, out.skip(l), m);
                assert(rebuild(ns, vals, m) == lit + out.skip(l));
                assert(out.take(l) + out.skip(l) =~= out);
                assert(lit + out.skip(l) =~= out);
            },
        }
    }
}

/// **Matching outputs are exactly the rebuilds**: an output that matches a
/// template with uniquely named editable regions equals the reassembly of
/// the template around the captures the match extracted from it.
pub proof fn lemma_match_is_rebuild(ns: Seq<Node>, vals: Vals, out: Seq<char>)
    requires
        output_matches(ns, vals, out),
        unique_names(ns),
    ensures
        rebuild(ns, vals, captures(ns, vals, out)) == out,
{
    crate::templating::model::lemma_captures_dom(ns, vals, out);
    lemma_rebuild_agrees(ns, vals, out, captures(ns, vals, out));
}

/// **Upgrading against an unchanged template is a no-op**: as long as the
/// output matches the template, carrying its editable regions into the very
/// same template reproduces the output verbatim.
pub proof fn lemma_upgrade_identity(ns: Seq<Node>, vals: Vals, out: Seq<char>)
    requires
        output_matches(ns, vals, out),
        unique_names(ns),
    ensures
        upgrade_result(ns, ns, vals, out) == out,
{
    lemma_match_is_rebuild(ns, vals, out);
}

/// Text that occurs in a suffix of `out` occurs in `out`.
proof fn lemma_occurs_in_skip(out: Seq<char>, k: int, t: Seq<char>)
    requires
        0 <= k <= out.len(),
        occurs_in(out.skip(k), t),
    ensures
        occurs_in(out, t),
{
    let p = choose|p: int|
        0 <= p && p + t.len() <= out.skip(k).len() && #[trigger] out.skip(k).subrange(
            p,
            p + t.len(),
        ) == t;
    assert(out.subrange(k + p, k + p + t.len()) =~= out.skip(k).subrange(p, p + t.len()));
    assert(0 <= k + p && (k + p) + t.len() <= out.len() && out.subrange(k + p, (k + p) + t.len())
        == t);
}

/// **Foreign output is rejected**: an output that matches a template is at
/// least as long as the template's fixed text, and contains every fixed run
/// the template pins down.  Contrapositively, text that is shorter than the
/// scaffold, or misses any scaffold run or substituted value, does not
/// validate — which is why output unrelated to a non-trivial template is
/// refused.
pub proof fn lemma_match_carries_scaffold(ns: Seq<Node>, vals: Vals, out: Seq<char>)
    requires
        output_matches(ns, vals, out),
    ensures
        out.len() >= scaffold_len(ns, vals),
        forall|i: int|
            0 <= i < ns.len() && !(ns[i] is Edit) ==> occurs_in(
                out,
                node_literal(#[trigger] ns[i], vals),
            ),
    decreases ns.len(),
{
    if ns.len() == 0 {
    } else {
        let rest = ns.skip(1);
        assert(forall|m: int| 0 <= m < rest.len() ==> rest[m] == ns[m + 1]);
        match ns[0] {
            Node::Edit(_, _) => {
                let k = choose|k: int|
                    0 <= k <= out.len() && matches_tail(rest, vals, out.skip(k));
                lemma_match_carries_scaffold(rest, vals, out.skip(k));
                assert forall|i: int| 0 <= i < ns.len() && !(ns[i] is Edit) implies occurs_in(
                    out,
                    node_literal(#[trigger] ns[i], vals),
                ) by {
                    assert(i >= 1);
                    assert(occurs_in(out.skip(k), node_literal(rest[i - 1], vals)));
                    lemma_occurs_in_skip(out, k, node_literal(ns[i], vals));
                }
            },
            _ => {
                let lit = node_literal(ns[0], vals);
                let l = lit.len() as int;
                lemma_match_carries_scaffold(rest, vals, out.skip(l));
                assert(out.subrange(0, l) =~= out.take(l));
                assert(0 <= 0 && 0 + lit.len() <= out.len() && out.subrange(0, 0 + lit.len() as int)
                    == lit);
                assert forall|i: int| 1 <= i < ns.len() && !(ns[i] is Edit) implies occurs_in(
                    out,
                    node_literal(#[trigger] ns[i], vals),
                ) by {
                    assert(occurs_in(out.skip(l), node_literal(rest[i - 1], vals)));
                    lemma_occurs_in_skip(out, l, node_literal(ns[i], vals));
                }
            },
        }
    }
}

/// A value looked up in a brace-free mapping holds no `{`.
proof fn lemma_lookup_clean(vals: Vals, name: Seq<char>)
    requires
        vals_clean(vals),
    ensures
        no_open_in(lookup(vals, name)),
        !ends_brace(lookup(vals, name)),
{
    let v = lookup(vals, name);
    assert(forall|i: int| 0 <= i < v.len() ==> v[i] != '{');
    assert forall|i: int| !open_at(v, i) by {
        if 0 <= i && i + 2 <= v.len() {
            assert(v[i] != '{');
        }
    }
}

/// Two opener-free texts concatenate to an opener-free text as long as no
/// opener straddles the seam.
proof fn lemma_no_open_concat(a: Seq<char>, b: Seq<char>)
    requires
        no_open_in(a),
        no_open_in(b),
        !(ends_brace(a) && b.len() > 0 && b[0] == '{'),
    ensures
        no_open_in(a + b),
{
    let c = a + b;
    assert forall|i: int| !open_at(c, i) by {
        if 0 <= i && i + 2 <= c.len() {
            if i + 2 <= a.len() {
                assert(c[i] == a[i]);
                assert(c[i + 1] == a[i + 1]);
                assert(!open_at(a, i));
            } else if i >= a.len() {
                assert(c[i] == b[i - a.len()]);
                assert(c[i + 1] == b[i + 1 - a.len()]);
                assert(!open_at(b, i - a.len()));
            } else {
                assert(i == a.len() - 1);
                assert(c[i] == a[a.len() - 1]);
                assert(c[i + 1] == b[0]);
            }
        }
    }
}

/// The rendering of a clean editable body holds no opener, and does not end
/// with `{` unless its last scaffold run does.
proof fn lemma_pieces_render_clean(ps: Seq<Piece>, vals: Vals)
    requires
        pieces_clean(ps),
        vals_clean(vals),
    ensures
        no_open_in(render_pieces(ps, vals)),
        (ps.len() == 0 || !(ps.last() is Raw && ends_brace(ps.last()->Raw_0))) ==> !ends_brace(
            render_pieces(ps, vals),
        ),
    decreases ps.len(),
{
    if ps.len() == 0 {
    } else {
        let h = render_piece(ps[0], vals);
        let rest = render_pieces(ps.skip(1), vals);
        assert(forall|m: int| 0 <= m < ps.len() - 1 ==> ps.skip(1)[m] == ps[m + 1]);
        lemma_pieces_render_clean(ps.skip(1), vals);
        match ps[0] {
            Piece::Raw(t) => {
                assert(no_open_in(t));
            },
            Piece::Var(nm) => {
                lemma_lookup_clean(vals, nm);
            },
        }
        if ps.len() > 1 {
            if ps[0] is Raw {
                assert(!ends_brace(ps[0]->Raw_0));
            }
        }
        if ps.len() == 1 {
            assert(rest =~= Seq::<char>::empty());
        }
        lemma_no_open_concat(h, rest);
        if ps.len() == 0 || !(ps.last() is Raw && ends_brace(ps.last()->Raw_0)) {
            if rest.len() > 0 {
                assert((h + rest)[(h + rest).len() - 1] == rest[rest.len() - 1]);
                if ps.len() > 1 {
                    assert(ps.skip(1).last() == ps.last());
                }
            } else {
                assert(h + rest =~= h);
            }
        }
    }
}

/// The rendering of a clean element holds no opener, and does not end with
/// `{` when the element's last scaffold run does not.
proof fn lemma_node_render_clean(n: Node, vals: Vals)
    requires
        node_clean(n),
        vals_clean(vals),
    ensures
        no_open_in(render_node(n, vals)),
        node_no_tail(n) ==> !ends_brace(render_node(n, vals)),
{
    match n {
        Node::Raw(_) => {
        },
        Node::Var(nm) => {
            lemma_lookup_clean(vals, nm);
        },
        Node::Edit(_, ps) => {
            lemma_pieces_render_clean(ps, vals);
        },
    }
}

/// **Render leaves no markup behind**, element form: rendering elements
/// whose scaffold text holds no `{{` opener, against values free of `{`,
/// yields text free of `{{` — no tag survives and none is formed across a
/// seam.  Non-final elements must not end a scaffold run with `{` (a final
/// one may: nothing follows it).
pub proof fn lemma_render_no_markup(ns: Seq<Node>, vals: Vals)
    requires
        vals_clean(vals),
        forall|m: int| 0 <= m < ns.len() ==> node_clean(#[trigger] ns[m]),
        forall|m: int| 0 <= m < ns.len() - 1 ==> node_no_tail(#[trigger] ns[m]),
    ensures
        no_open_in(render_nodes(ns, vals)),
    decreases ns.len(),
{
    if ns.len() == 0 {
    } else {
        let h = render_node(ns[0], vals);
        let rest = render_nodes(ns.skip(1), vals);
        assert(forall|m: int| 0 <= m < ns.len() - 1 ==> ns.skip(1)[m] == ns[m + 1]);
        lemma_render_no_markup(ns.skip(1), vals);
        lemma_node_render_clean(ns[0], vals);
        if ns.len() == 1 {
            assert(rest =~= Seq::<char>::empty());
        } else {
            assert(node_no_tail(ns[0]));
        }
        lemma_no_open_concat(h, rest);
    }
}

/// **Render totality and markup freedom**: any template a source parses to
/// renders, under values free of `{`, to text with no residual `{{` markup.
/// The one family of templates left out: one whose editable body's last
/// scaffold run ends with `{` (after newline stripping) while more template
/// follows — there the user-visible text legitimately holds a `{` that the
/// next element's text could extend to `{{`.
pub proof fn lemma_rendered_template_free_of_markup(src: Seq<char>, vals: Vals)
    requires
        parse_template(src) is Ok,
        vals_clean(vals),
        forall|m: int|
            0 <= m < parse_template(src)->Ok_0.len() - 1 && #[trigger] parse_template(
                src,
            )->Ok_0[m] is Edit ==> node_no_tail(parse_template(src)->Ok_0[m]),
    ensures
        no_open_in(render_nodes(parse_template(src)->Ok_0, vals)),
{
    let ns = parse_template(src)->Ok_0;
    lemma_parse_output_clean(src, 0, Set::empty());
    assert forall|m: int| 0 <= m < ns.len() - 1 implies node_no_tail(#[trigger] ns[m]) by {
        match ns[m] {
            Node::Raw(_) => {
                assert(node_no_tail(ns[m]));
            },
            Node::Var(_) => {
            },
            Node::Edit(_, _) => {
            },
        }
    }
    lemma_render_no_markup(ns, vals);
}

/// **No-op upgrade round-trip**: upgrading a freshly rendered output to the
/// same template under the same values returns the rendering unchanged.
pub proof fn lemma_noop_upgrade(ns: Seq<Node>, vals: Vals)
    requires
        unique_names(ns),
    ensures
        upgrade_result(ns, ns, vals, render_nodes(ns, vals)) == render_nodes(ns, vals),
{
    lemma_validate_after_render(ns, vals);
    lemma_upgrade_identity(ns, vals, render_nodes(ns, vals));
}

} // verus!

