//! What every accepted configuration satisfies, and how the answers to the
//! grid's messages follow from it.
use vstd::prelude::*;
use crate::config::{
    colour_fault, colours_fault, count_defaults, default_index, fields_of, fill_default, finalize,
    first_repeat, flat_pads, grid, load_spec, missing_pads, missing_upto, parse_line, parse_lines,
    parse_linear_spec, parse_pad, parse_pads, section_colour_fault, valid_pad,
};
use crate::midi::{
    colour_sysex, held_after_note, holds_any, owning_section, run, step_spec, without, ResponseSpec,
};
use crate::section::SectionSpec;

verus! {

/// No pad belongs to two sections.
pub open spec fn pads_disjoint(secs: Seq<SectionSpec>) -> bool {
    forall|i: int, j: int, p: u8|
        0 <= i < j < secs.len() && #[trigger] secs[i].pads.contains(p) ==> !#[trigger] secs[j].pads.contains(
            p,
        )
}

/// No section names a pad twice.
pub open spec fn pads_unique(secs: Seq<SectionSpec>) -> bool {
    forall|i: int| 0 <= i < secs.len() ==> #[trigger] secs[i].pads.no_duplicates()
}

/// Every colour component is at most 127.
pub open spec fn colours_in_range(secs: Seq<SectionSpec>) -> bool {
    forall|i: int, k: int|
        0 <= i < secs.len() && 0 <= k < 3 ==> #[trigger] secs[i].main_colour[k] <= 127
            && secs[i].active_colour[k] <= 127
}

/// Every pad that a section names is a pad of the grid.
pub open spec fn pads_valid(secs: Seq<SectionSpec>) -> bool {
    forall|i: int, p: u8| 0 <= i < secs.len() && #[trigger] secs[i].pads.contains(p) ==> valid_pad(p)
}

/// Every pad of the grid belongs to some section.
pub open spec fn covers_grid(secs: Seq<SectionSpec>) -> bool {
    forall|p: u8| valid_pad(p) ==> exists|i: int| 0 <= i < secs.len() && #[trigger] secs[i].pads.contains(p)
}

// ---------------------------------------------------------------------
// The grid
// ---------------------------------------------------------------------

proof fn lemma_grid_entry(k: int)
    requires
        0 <= k < 64,
    ensures
        grid()[k] == (k / 8 + 1) * 10 + k % 8 + 1,
        grid()[k] / 10 == k / 8 + 1,
        grid()[k] % 10 == k % 8 + 1,
        valid_pad(grid()[k]),
{
    let v = (k / 8 + 1) * 10 + k % 8 + 1;
    assert(0 <= v < 256);
    assert(v / 10 == k / 8 + 1 && v % 10 == k % 8 + 1) by (nonlinear_arith)
        requires
            0 <= k < 64,
            v == (k / 8 + 1) * 10 + k % 8 + 1,
    ;
}

proof fn lemma_grid_facts()
    ensures
        grid().len() == 64,
        grid().no_duplicates(),
        forall|p: u8| valid_pad(p) <==> grid().contains(p),
{
    assert forall|i: int, j: int| 0 <= i < 64 && 0 <= j < 64 && i != j implies grid()[i]
        != grid()[j] by {
        lemma_grid_entry(i);
        lemma_grid_entry(j);
        assert(i == (i / 8) * 8 + i % 8 && j == (j / 8) * 8 + j % 8) by (nonlinear_arith);
    }
    assert forall|p: u8| valid_pad(p) implies grid().contains(p) by {
        let k = (p / 10 - 1) * 8 + p % 10 - 1;
        assert(0 <= k < 64);
        assert(k / 8 == p / 10 - 1 && k % 8 == p % 10 - 1) by (nonlinear_arith)
            requires
                k == (p / 10 - 1) * 8 + p % 10 - 1,
                1 <= p % 10 <= 8,
                1 <= p / 10 <= 8,
        ;
        lemma_grid_entry(k);
        assert(p == (p / 10) * 10 + p % 10) by (nonlinear_arith);
        assert(grid()[k] == p);
    }
    assert forall|p: u8| grid().contains(p) implies valid_pad(p) by {
        let k = choose|k: int| 0 <= k < 64 && #[trigger] grid()[k] == p;
        lemma_grid_entry(k);
    }
}

proof fn lemma_missing_upto(present: Seq<u8>, k: int)
    requires
        0 <= k <= 64,
    ensures
        missing_upto(present, k).no_duplicates(),
        forall|x: u8|
            missing_upto(present, k).contains(x) <==> (grid().take(k).contains(x)
                && !present.contains(x)),
    decreases k,
{
    reveal(Seq::filter);
    lemma_grid_facts();
    if k > 0 {
        lemma_missing_upto(present, k - 1);
        let g = grid().take(k);
        assert(g.drop_last() =~= grid().take(k - 1));
        let prev = missing_upto(present, k - 1);
        let cur = missing_upto(present, k);
        let last = g.last();
        assert(!grid().take(k - 1).contains(last)) by {
            if grid().take(k - 1).contains(last) {
                let j = choose|j: int| 0 <= j < k - 1 && #[trigger] grid().take(k - 1)[j] == last;
                assert(grid()[j] == grid()[k - 1]);
            }
        }
        assert forall|x: u8| cur.contains(x) <==> (g.contains(x) && !present.contains(x)) by {
            if g.contains(x) {
                let j = choose|j: int| 0 <= j < k && g[j] == x;
                if j < k - 1 {
                    assert(grid().take(k - 1)[j] == x);
                }
            }
            if grid().take(k - 1).contains(x) {
                let j = choose|j: int| 0 <= j < k - 1 && #[trigger] grid().take(k - 1)[j] == x;
                assert(g[j] == x);
            }
            if !present.contains(last) {
                assert(cur == prev.push(last));
                if prev.contains(x) {
                    let j = choose|j: int| 0 <= j < prev.len() && prev[j] == x;
                    assert(cur[j] == x);
                }
                if cur.contains(x) && x != last {
                    let j = choose|j: int| 0 <= j < cur.len() && cur[j] == x;
                    assert(prev[j] == x);
                }
                assert(cur[cur.len() - 1] == last);
            } else {
                assert(cur == prev);
            }
        }
        if !present.contains(last) {
            assert(cur == prev.push(last));
            assert forall|i: int, j: int|
                0 <= i < cur.len() && 0 <= j < cur.len() && i != j implies cur[i] != cur[j] by {
                if i == cur.len() - 1 {
                    assert(prev.contains(cur[j]));
                } else if j == cur.len() - 1 {
                    assert(prev.contains(cur[i]));
                }
            }
        }
    } else {
        assert(grid().take(0) =~= Seq::<u8>::empty());
    }
}

/// The pads that the default section receives: each grid pad not named,
/// once.
proof fn lemma_missing_pads(present: Seq<u8>)
    ensures
        missing_pads(present).no_duplicates(),
        forall|x: u8|
            missing_pads(present).contains(x) <==> (valid_pad(x) && !present.contains(x)),
{
    lemma_missing_upto(present, 64);
    lemma_grid_facts();
    assert(grid().take(64) =~= grid());
}


// ---------------------------------------------------------------------
// Pads across sections
// ---------------------------------------------------------------------

proof fn lemma_first_repeat_none(s: Seq<u8>)
    ensures
        first_repeat(s) is None <==> s.no_duplicates(),
    decreases s.len(),
{
    if s.len() > 0 {
        let p = s.drop_last();
        let c = s.last();
        lemma_first_repeat_none(p);
        if s.no_duplicates() {
            assert forall|i: int, j: int|
                0 <= i < p.len() && 0 <= j < p.len() && i != j implies p[i] != p[j] by {
                assert(p[i] == s[i] && p[j] == s[j]);
            }
            if p.contains(c) {
                let k = choose|k: int| 0 <= k < p.len() && #[trigger] p[k] == c;
                assert(s[k] == s[s.len() - 1]);
            }
        } else if p.no_duplicates() && !p.contains(c) {
            assert forall|i: int, j: int|
                0 <= i < s.len() && 0 <= j < s.len() && i != j implies s[i] != s[j] by {
                if i == s.len() - 1 {
                    assert(p[j] == s[j]);
                } else if j == s.len() - 1 {
                    assert(p[i] == s[i]);
                } else {
                    assert(p[i] == s[i] && p[j] == s[j]);
                }
            }
        }
    }
}

proof fn lemma_flat_contains(secs: Seq<SectionSpec>, i: int, p: u8)
    requires
        0 <= i < secs.len(),
        secs[i].pads.contains(p),
    ensures
        flat_pads(secs).contains(p),
    decreases secs.len(),
{
    let a = flat_pads(secs.drop_last());
    let b = secs.last().pads;
    assert(flat_pads(secs) == a + b);
    if i == secs.len() - 1 {
        let k = choose|k: int| 0 <= k < b.len() && #[trigger] b[k] == p;
        assert((a + b)[a.len() + k] == p);
    } else {
        assert(secs.drop_last()[i] == secs[i]);
        lemma_flat_contains(secs.drop_last(), i, p);
        let k = choose|k: int| 0 <= k < a.len() && #[trigger] a[k] == p;
        assert((a + b)[k] == p);
    }
}

proof fn lemma_flat_contains_rev(secs: Seq<SectionSpec>, p: u8)
    requires
        flat_pads(secs).contains(p),
    ensures
        exists|i: int| 0 <= i < secs.len() && #[trigger] secs[i].pads.contains(p),
    decreases secs.len(),
{
    let a = flat_pads(secs.drop_last());
    let b = secs.last().pads;
    assert(flat_pads(secs) == a + b);
    let k = choose|k: int| 0 <= k < (a + b).len() && #[trigger] (a + b)[k] == p;
    if k < a.len() {
        assert(a[k] == p);
        lemma_flat_contains_rev(secs.drop_last(), p);
        let i = choose|i: int| 0 <= i < secs.drop_last().len() && #[trigger] secs.drop_last()[i].pads.contains(p);
        assert(secs[i] == secs.drop_last()[i]);
    } else {
        assert(b[k - a.len()] == p);
        assert(secs[secs.len() - 1].pads.contains(p));
    }
}

/// Pads named once overall are named once per section and by one section.
proof fn lemma_flat_nodup(secs: Seq<SectionSpec>)
    requires
        flat_pads(secs).no_duplicates(),
    ensures
        pads_disjoint(secs),
        pads_unique(secs),
    decreases secs.len(),
{
    if secs.len() > 0 {
        let q = secs.drop_last();
        let a = flat_pads(q);
        let b = secs.last().pads;
        let ab = a + b;
        assert(flat_pads(secs) == ab);
        assert forall|i: int, j: int| 0 <= i < a.len() && 0 <= j < a.len() && i != j implies a[i]
            != a[j] by {
            assert(ab[i] == a[i] && ab[j] == a[j]);
        }
        assert forall|i: int, j: int| 0 <= i < b.len() && 0 <= j < b.len() && i != j implies b[i]
            != b[j] by {
            assert(ab[a.len() + i] == b[i] && ab[a.len() + j] == b[j]);
        }
        lemma_flat_nodup(q);
        assert forall|i: int, j: int, p: u8|
            0 <= i < j < secs.len() && #[trigger] secs[i].pads.contains(p) implies !#[trigger] secs[j].pads.contains(
                p,
            ) by {
            assert(secs[i] == q[i]);
            if j < secs.len() - 1 {
                assert(secs[j] == q[j]);
            } else {
                lemma_flat_contains(q, i, p);
                if b.contains(p) {
                    let x = choose|x: int| 0 <= x < a.len() && #[trigger] a[x] == p;
                    let y = choose|y: int| 0 <= y < b.len() && #[trigger] b[y] == p;
                    assert(ab[x] == ab[a.len() + y]);
                }
            }
        }
        assert forall|i: int| 0 <= i < secs.len() implies #[trigger] secs[i].pads.no_duplicates() by {
            if i < secs.len() - 1 {
                assert(secs[i] == q[i]);
            }
        }
    }
}

/// Sections that are disjoint and name each pad once name each pad once
/// overall.
proof fn lemma_flat_nodup_rev(secs: Seq<SectionSpec>)
    requires
        pads_disjoint(secs),
        pads_unique(secs),
    ensures
        flat_pads(secs).no_duplicates(),
    decreases secs.len(),
{
    if secs.len() > 0 {
        let q = secs.drop_last();
        let a = flat_pads(q);
        let b = secs.last().pads;
        assert(flat_pads(secs) == a + b);
        assert forall|i: int, j: int, p: u8|
            0 <= i < j < q.len() && #[trigger] q[i].pads.contains(p) implies !#[trigger] q[j].pads.contains(
                p,
            ) by {
            assert(q[i] == secs[i] && q[j] == secs[j]);
        }
        assert forall|i: int| 0 <= i < q.len() implies #[trigger] q[i].pads.no_duplicates() by {
            assert(q[i] == secs[i]);
        }
        lemma_flat_nodup_rev(q);
        assert(secs[secs.len() - 1].pads.no_duplicates());
        assert forall|x: int, y: int| 0 <= x < a.len() && 0 <= y < b.len() implies a[x] != b[y] by {
            if a[x] == b[y] {
                assert(a.contains(a[x]));
                lemma_flat_contains_rev(q, a[x]);
                let i = choose|i: int| 0 <= i < q.len() && #[trigger] q[i].pads.contains(a[x]);
                assert(secs[i] == q[i]);
                assert(secs[secs.len() - 1].pads.contains(a[x]));
            }
        }
        vstd::seq_lib::lemma_no_dup_in_concat(a, b);
    }
}

proof fn lemma_default_index(secs: Seq<SectionSpec>)
    ensures
        default_index(secs) matches Some(i) ==> 0 <= i < secs.len() && secs[i].pads.len() == 0,
        default_index(secs) is None ==> count_defaults(secs) == 0,
    decreases secs.len(),
{
    if secs.len() > 0 {
        lemma_default_index(secs.drop_last());
    }
}

proof fn lemma_count_defaults_update(s: Seq<SectionSpec>, i: int, x: SectionSpec)
    requires
        0 <= i < s.len(),
        s[i].pads.len() == 0,
    ensures
        count_defaults(s.update(i, x)) <= count_defaults(s),
    decreases s.len(),
{
    let u = s.update(i, x);
    if i == s.len() - 1 {
        assert(u.drop_last() =~= s.drop_last());
    } else {
        assert(u.drop_last() =~= s.drop_last().update(i, x));
        lemma_count_defaults_update(s.drop_last(), i, x);
    }
}

proof fn lemma_colours_fault_none(secs: Seq<SectionSpec>)
    requires
        colours_fault(secs) is None,
    ensures
        colours_in_range(secs),
    decreases secs.len(),
{
    if secs.len() > 0 {
        let q = secs.drop_last();
        lemma_colours_fault_none(q);
        let last = secs.last();
        assert(section_colour_fault(last, secs.len() - 1) is None);
        assert(colour_fault(last.main_colour, secs.len() - 1, crate::config::ColourRole::Main)
            is None);
        assert forall|i: int, k: int| 0 <= i < secs.len() && 0 <= k < 3 implies #[trigger] secs[i].main_colour[k]
            <= 127 && secs[i].active_colour[k] <= 127 by {
            if i < secs.len() - 1 {
                assert(secs[i] == q[i]);
                assert(q[i].main_colour[k] <= 127);
            }
        }
    }
}

/// What the checks leave: a section without pads, if one remains, is the
/// only one; the other sections are as they were read.
proof fn lemma_finalize_shape(secs: Seq<SectionSpec>, out: Seq<SectionSpec>)
    requires
        finalize(secs) == Ok::<Seq<SectionSpec>, crate::config::ConfigError>(out),
    ensures
        out.len() == secs.len(),
        flat_pads(secs).no_duplicates(),
        colours_in_range(out),
        count_defaults(out) <= 1,
        pads_disjoint(out),
        pads_unique(out),
        forall|j: int|
            0 <= j < secs.len() && default_index(secs) != Some(j) ==> #[trigger] out[j] == secs[j],
        default_index(secs) matches Some(i) ==> {
            &&& 0 <= i < secs.len()
            &&& secs[i].pads.len() == 0
            &&& out[i].main_colour == secs[i].main_colour
            &&& out[i].active_colour == secs[i].active_colour
            &&& out[i].midi_note == secs[i].midi_note
            &&& out[i].pads == if flat_pads(secs).len() < 64 {
                missing_pads(flat_pads(secs))
            } else {
                Seq::<u8>::empty()
            }
        },
{
    let flat = flat_pads(secs);
    lemma_first_repeat_none(flat);
    lemma_flat_nodup(secs);
    lemma_colours_fault_none(secs);
    lemma_default_index(secs);
    assert(out == fill_default(secs));
    match default_index(secs) {
        Some(i) => {
            if flat.len() < 64 {
                let m = missing_pads(flat);
                lemma_missing_pads(flat);
                let x = SectionSpec {
                    pads: m,
                    main_colour: secs[i].main_colour,
                    active_colour: secs[i].active_colour,
                    midi_note: secs[i].midi_note,
                };
                assert(out == secs.update(i, x));
                lemma_count_defaults_update(secs, i, x);
                assert forall|a: int, b: int, p: u8|
                    0 <= a < b < out.len() && #[trigger] out[a].pads.contains(p) implies !#[trigger] out[b].pads.contains(
                        p,
                    ) by {
                    if a == i {
                        if out[b].pads.contains(p) {
                            lemma_flat_contains(secs, b, p);
                        }
                    } else if b == i {
                        lemma_flat_contains(secs, a, p);
                    }
                }
                assert forall|a: int| 0 <= a < out.len() implies #[trigger] out[a].pads.no_duplicates() by {
                    if a != i {
                        assert(out[a] == secs[a]);
                    }
                }
                assert forall|a: int, k: int| 0 <= a < out.len() && 0 <= k < 3 implies #[trigger] out[a].main_colour[k]
                    <= 127 && out[a].active_colour[k] <= 127 by {
                    assert(secs[a].main_colour[k] <= 127);
                }
            } else {
                assert(secs[i].pads =~= Seq::<u8>::empty());
            }
        },
        None => {},
    }
}

// ---------------------------------------------------------------------
// The laws
// ---------------------------------------------------------------------

/// A configuration that is accepted assigns each pad to at most one
/// section, and no section names a pad twice.
pub proof fn law_accepted_sections_are_disjoint(
    text: Seq<char>,
    is_json: bool,
    json_sections: Option<Seq<SectionSpec>>,
    out: Seq<SectionSpec>,
)
    requires
        load_spec(text, is_json, json_sections) == Ok::<
            Seq<SectionSpec>,
            crate::config::ConfigError,
        >(out),
    ensures
        pads_disjoint(out),
        pads_unique(out),
        flat_pads(out).no_duplicates(),
{
    let parsed = if is_json {
        match json_sections {
            Some(v) => Ok(v),
            None => Err(crate::config::ConfigError::InvalidJson),
        }
    } else {
        parse_linear_spec(text)
    };
    let secs = parsed->Ok_0;
    lemma_finalize_shape(secs, out);
    lemma_flat_nodup_rev(out);
}

/// A configuration that is accepted has at most one section without pads.
pub proof fn law_accepted_has_at_most_one_default(
    text: Seq<char>,
    is_json: bool,
    json_sections: Option<Seq<SectionSpec>>,
    out: Seq<SectionSpec>,
)
    requires
        load_spec(text, is_json, json_sections) == Ok::<
            Seq<SectionSpec>,
            crate::config::ConfigError,
        >(out),
    ensures
        count_defaults(out) <= 1,
{
    let parsed = if is_json {
        match json_sections {
            Some(v) => Ok(v),
            None => Err(crate::config::ConfigError::InvalidJson),
        }
    } else {
        parse_linear_spec(text)
    };
    lemma_finalize_shape(parsed->Ok_0, out);
}

/// In a configuration that is accepted every colour component is in
/// 0..=127.
pub proof fn law_accepted_colours_in_range(
    text: Seq<char>,
    is_json: bool,
    json_sections: Option<Seq<SectionSpec>>,
    out: Seq<SectionSpec>,
)
    requires
        load_spec(text, is_json, json_sections) == Ok::<
            Seq<SectionSpec>,
            crate::config::ConfigError,
        >(out),
    ensures
        colours_in_range(out),
{
    let parsed = if is_json {
        match json_sections {
            Some(v) => Ok(v),
            None => Err(crate::config::ConfigError::InvalidJson),
        }
    } else {
        parse_linear_spec(text)
    };
    lemma_finalize_shape(parsed->Ok_0, out);
}

proof fn lemma_owning_section(secs: Seq<SectionSpec>, pad: u8, i: int)
    requires
        pads_disjoint(secs),
        0 <= i < secs.len(),
        secs[i].pads.contains(pad),
    ensures
        owning_section(secs, pad) == Some(i),
    decreases secs.len(),
{
    let q = secs.drop_last();
    if i < secs.len() - 1 {
        assert(q[i] == secs[i]);
        assert forall|a: int, b: int, p: u8|
            0 <= a < b < q.len() && #[trigger] q[a].pads.contains(p) implies !#[trigger] q[b].pads.contains(
                p,
            ) by {
            assert(q[a] == secs[a] && q[b] == secs[b]);
        }
        lemma_owning_section(q, pad, i);
    } else {
        lemma_owning_section_none(q, pad, secs);
    }
}

proof fn lemma_owning_section_none(q: Seq<SectionSpec>, pad: u8, secs: Seq<SectionSpec>)
    requires
        pads_disjoint(secs),
        secs.len() > 0,
        q == secs.drop_last(),
        secs.last().pads.contains(pad),
    ensures
        owning_section(q, pad) is None,
{
    if owning_section(q, pad) is Some {
        lemma_owning_section_some(q, pad);
        let j = owning_section(q, pad)->Some_0;
        assert(secs[j] == q[j]);
        assert(secs[secs.len() - 1].pads.contains(pad));
    }
}

proof fn lemma_owning_section_some(q: Seq<SectionSpec>, pad: u8)
    ensures
        owning_section(q, pad) matches Some(j) ==> 0 <= j < q.len() && q[j].pads.contains(pad),
    decreases q.len(),
{
    if q.len() > 0 {
        lemma_owning_section_some(q.drop_last(), pad);
    }
}


proof fn lemma_parse_pads_valid(toks: Seq<Seq<char>>)
    ensures
        parse_pads(toks) matches Ok(ps) ==> forall|x: u8| #[trigger] ps.contains(x) ==> valid_pad(x),
    decreases toks.len(),
{
    if toks.len() > 0 {
        lemma_parse_pads_valid(toks.drop_last());
        if let Ok(ps) = parse_pads(toks) {
            let prev = parse_pads(toks.drop_last())->Ok_0;
            let p = parse_pad(toks.last())->Some_0;
            assert(valid_pad(p));
            assert(ps == prev.push(p));
            assert forall|x: u8| #[trigger] ps.contains(x) implies valid_pad(x) by {
                let k = choose|k: int| 0 <= k < ps.len() && ps[k] == x;
                if k < prev.len() {
                    assert(prev[k] == x);
                    assert(prev.contains(x));
                } else {
                    assert(ps[k] == p);
                }
            }
        }
    }
}

proof fn lemma_parse_lines_valid(ls: Seq<Seq<char>>)
    ensures
        parse_lines(ls) matches Ok(v) ==> pads_valid(v),
    decreases ls.len(),
{
    if ls.len() > 0 {
        lemma_parse_lines_valid(ls.drop_last());
        if let Ok(v) = parse_lines(ls) {
            let prev = parse_lines(ls.drop_last())->Ok_0;
            if !crate::config::is_comment(ls.last()) {
                let sec = parse_line(ls.last(), ls.len() - 1)->Ok_0;
                assert(v == prev.push(sec));
                lemma_parse_pads_valid(crate::text::ws_tokens(fields_of(ls.last())[0]));
                assert forall|i: int, p: u8| 0 <= i < v.len() && #[trigger] v[i].pads.contains(p) implies valid_pad(
                    p,
                ) by {
                    if i < prev.len() {
                        assert(v[i] == prev[i]);
                    } else {
                        assert(v[i] == sec);
                    }
                }
            }
        }
    }
}

/// Every pad that a configuration in the line format names is a pad of the
/// grid (rows and columns 1 to 8).
pub proof fn law_line_format_names_grid_pads(text: Seq<char>, secs: Seq<SectionSpec>)
    requires
        parse_linear_spec(text) == Ok::<Seq<SectionSpec>, crate::config::ConfigError>(secs),
    ensures
        pads_valid(secs),
{
    lemma_parse_lines_valid(crate::config::lines_of(text));
}

/// The section without pads is the default for the pads not included:
/// when the sections read name only grid pads and one of them has no pads,
/// the accepted sections hold every grid pad exactly once, 64 in all, and
/// every section but the default one is as it was read.
pub proof fn law_default_section_takes_the_rest(secs: Seq<SectionSpec>, out: Seq<SectionSpec>)
    requires
        finalize(secs) == Ok::<Seq<SectionSpec>, crate::config::ConfigError>(out),
        default_index(secs) is Some,
        pads_valid(secs),
    ensures
        covers_grid(out),
        pads_valid(out),
        pads_disjoint(out),
        flat_pads(out).len() == 64,
        forall|j: int| 0 <= j < secs.len() && default_index(secs) != Some(j) ==> #[trigger] out[j]
            == secs[j],
{
    broadcast use vstd::seq_lib::seq_to_set_is_finite;

    lemma_finalize_shape(secs, out);
    lemma_grid_facts();
    let i = default_index(secs)->Some_0;
    let flat = flat_pads(secs);
    let gs = grid().to_set();
    grid().unique_seq_to_set();
    // The pads read are distinct grid pads, so at most 64.
    assert(flat.to_set().subset_of(gs)) by {
        assert forall|p: u8| flat.to_set().contains(p) implies gs.contains(p) by {
            lemma_flat_contains_rev(secs, p);
        }
    }
    flat.unique_seq_to_set();
    vstd::set_lib::lemma_len_subset(flat.to_set(), gs);
    if flat.len() < 64 {
        lemma_missing_pads(flat);
        assert forall|p: u8| valid_pad(p) implies exists|k: int|
            0 <= k < out.len() && #[trigger] out[k].pads.contains(p) by {
            if flat.contains(p) {
                lemma_flat_contains_rev(secs, p);
                let j = choose|j: int| 0 <= j < secs.len() && #[trigger] secs[j].pads.contains(p);
                assert(j != i);
                assert(out[j] == secs[j]);
            } else {
                assert(out[i].pads.contains(p));
            }
        }
    } else {
        vstd::set_lib::lemma_subset_equality(flat.to_set(), gs);
        assert forall|p: u8| valid_pad(p) implies exists|k: int|
            0 <= k < out.len() && #[trigger] out[k].pads.contains(p) by {
            assert(gs.contains(p));
            assert(flat.to_set().contains(p));
            lemma_flat_contains_rev(secs, p);
            let j = choose|j: int| 0 <= j < secs.len() && #[trigger] secs[j].pads.contains(p);
            assert(j != i);
            assert(out[j] == secs[j]);
        }
    }
    assert forall|a: int, p: u8| 0 <= a < out.len() && #[trigger] out[a].pads.contains(p) implies valid_pad(
        p,
    ) by {
        if a != i {
            assert(out[a] == secs[a]);
        } else if flat.len() < 64 {
            lemma_missing_pads(flat);
        }
    }
    // The accepted pads are distinct and are exactly the grid's pads.
    lemma_flat_nodup_rev(out);
    let fo = flat_pads(out);
    assert(fo.to_set() =~= gs) by {
        assert forall|p: u8| fo.to_set().contains(p) <==> gs.contains(p) by {
            if fo.contains(p) {
                lemma_flat_contains_rev(out, p);
            }
            if gs.contains(p) {
                assert(valid_pad(p));
                let k = choose|k: int| 0 <= k < out.len() && #[trigger] out[k].pads.contains(p);
                lemma_flat_contains(out, k, p);
            }
        }
    }
    fo.unique_seq_to_set();
}


/// The checks keep the sections as they were read, in number and order:
/// every section but the default one is unchanged, and the default one
/// keeps its colours and note.
pub proof fn law_checks_keep_sections(secs: Seq<SectionSpec>, out: Seq<SectionSpec>)
    requires
        finalize(secs) == Ok::<Seq<SectionSpec>, crate::config::ConfigError>(out),
    ensures
        out.len() == secs.len(),
        forall|j: int|
            0 <= j < secs.len() && default_index(secs) != Some(j) ==> #[trigger] out[j] == secs[j],
        default_index(secs) matches Some(i) ==> {
            &&& out[i].main_colour == secs[i].main_colour
            &&& out[i].active_colour == secs[i].active_colour
            &&& out[i].midi_note == secs[i].midi_note
        },
{
    lemma_finalize_shape(secs, out);
}


// ---------------------------------------------------------------------
// Pads held and the colours sent
// ---------------------------------------------------------------------

/// Pad `p` has sent a note-on (velocity above 0) and no note-off since, in
/// the messages `msgs`.
pub open spec fn pad_down(msgs: Seq<[u8; 3]>, p: u8) -> bool
    decreases msgs.len(),
{
    if msgs.len() == 0 {
        false
    } else {
        let m = msgs.last();
        if m[0] == 144 && m[1] == p {
            m[2] > 0
        } else {
            pad_down(msgs.drop_last(), p)
        }
    }
}

/// Some pad of section `i` is pressed after the messages `msgs`.
pub open spec fn section_held(secs: Seq<SectionSpec>, i: int, msgs: Seq<[u8; 3]>) -> bool {
    exists|p: u8| secs[i].pads.contains(p) && #[trigger] pad_down(msgs, p)
}

/// The colour message last sent for section `i` in answer to `msgs`.
pub open spec fn last_colour(secs: Seq<SectionSpec>, msgs: Seq<[u8; 3]>, i: int) -> Option<Seq<u8>>
    decreases msgs.len(),
{
    if msgs.len() == 0 {
        None
    } else {
        let m = msgs.last();
        if m[0] == 144 && owning_section(secs, m[1]) == Some(i) {
            match run(secs, msgs).1.last() {
                ResponseSpec::Note { colour, .. } => Some(colour),
                _ => None,
            }
        } else {
            last_colour(secs, msgs.drop_last(), i)
        }
    }
}

proof fn lemma_without(s: Seq<u8>, p: u8)
    ensures
        forall|x: u8| #[trigger] without(s, p).contains(x) <==> (s.contains(x) && x != p),
        s.no_duplicates() ==> without(s, p).no_duplicates(),
    decreases s.len(),
{
    if s.len() > 0 {
        let q = s.drop_last();
        let w = without(q, p);
        lemma_without(q, p);
        assert forall|x: u8| #[trigger] without(s, p).contains(x) <==> (s.contains(x) && x != p) by {
            if s.contains(x) {
                let k = choose|k: int| 0 <= k < s.len() && s[k] == x;
                if k < q.len() {
                    assert(q[k] == x);
                }
            }
            if q.contains(x) {
                let k = choose|k: int| 0 <= k < q.len() && q[k] == x;
                assert(s[k] == x);
            }
            if s.last() != p {
                let v = w.push(s.last());
                if v.contains(x) {
                    let k = choose|k: int| 0 <= k < v.len() && v[k] == x;
                    if k < w.len() {
                        assert(w[k] == x);
                    }
                }
                if w.contains(x) {
                    let k = choose|k: int| 0 <= k < w.len() && w[k] == x;
                    assert(v[k] == x);
                }
                assert(v[w.len() as int] == s.last());
            }
        }
        if s.no_duplicates() {
            assert(q.no_duplicates()) by {
                assert forall|a: int, b: int|
                    0 <= a < q.len() && 0 <= b < q.len() && a != b implies q[a] != q[b] by {
                    assert(q[a] == s[a] && q[b] == s[b]);
                }
            }
            if s.last() != p {
                let v = w.push(s.last());
                assert(!w.contains(s.last())) by {
                    if q.contains(s.last()) {
                        let k = choose|k: int| 0 <= k < q.len() && q[k] == s.last();
                        assert(s[k] == s[s.len() - 1]);
                    }
                }
                assert forall|a: int, b: int|
                    0 <= a < v.len() && 0 <= b < v.len() && a != b implies v[a] != v[b] by {
                    if a == w.len() {
                        assert(w.contains(v[b]));
                    } else if b == w.len() {
                        assert(w.contains(v[a]));
                    } else {
                        assert(v[a] == w[a] && v[b] == w[b]);
                    }
                }
            }
        }
    }
}

proof fn lemma_owning_section_of_member(secs: Seq<SectionSpec>, i: int, x: u8)
    requires
        0 <= i < secs.len(),
        secs[i].pads.contains(x),
    ensures
        owning_section(secs, x) is Some,
    decreases secs.len(),
{
    if i < secs.len() - 1 {
        assert(secs.drop_last()[i] == secs[i]);
        lemma_owning_section_of_member(secs.drop_last(), i, x);
    }
}

/// The pads held are the pads of sections that have sent a note-on and no
/// note-off since, each once.
pub proof fn law_held_pads_are_pressed_pads(secs: Seq<SectionSpec>, msgs: Seq<[u8; 3]>)
    ensures
        run(secs, msgs).0.no_duplicates(),
        forall|p: u8|
            #[trigger] run(secs, msgs).0.contains(p) <==> (pad_down(msgs, p) && owning_section(
                secs,
                p,
            ) is Some),
    decreases msgs.len(),
{
    if msgs.len() > 0 {
        let q = msgs.drop_last();
        let m = msgs.last();
        law_held_pads_are_pressed_pads(secs, q);
        let h = run(secs, q).0;
        let h2 = run(secs, msgs).0;
        assert(h2 == step_spec(secs, h, m).0);
        if m[0] == 144 && owning_section(secs, m[1]) is Some {
            assert(h2 == held_after_note(h, m[1], m[2]));
            lemma_without(h, m[1]);
            if m[2] > 0 && !h.contains(m[1]) {
                let v = h.push(m[1]);
                assert forall|p: u8| #[trigger] v.contains(p) <==> (h.contains(p) || p == m[1]) by {
                    if v.contains(p) {
                        let k = choose|k: int| 0 <= k < v.len() && v[k] == p;
                        if k < h.len() {
                            assert(h[k] == p);
                        }
                    }
                    if h.contains(p) {
                        let k = choose|k: int| 0 <= k < h.len() && h[k] == p;
                        assert(v[k] == p);
                    }
                    assert(v[h.len() as int] == m[1]);
                }
                assert forall|a: int, b: int|
                    0 <= a < v.len() && 0 <= b < v.len() && a != b implies v[a] != v[b] by {
                    if a == h.len() {
                        assert(h.contains(v[b]));
                    } else if b == h.len() {
                        assert(h.contains(v[a]));
                    } else {
                        assert(v[a] == h[a] && v[b] == h[b]);
                    }
                }
            }
        } else {
            assert(h2 == h);
            assert forall|p: u8| #[trigger] h2.contains(p) <==> (pad_down(msgs, p) && owning_section(
                secs,
                p,
            ) is Some) by {
                assert(h.contains(p) <==> (pad_down(q, p) && owning_section(secs, p) is Some));
            }
        }
    }
}

/// A section is shown in its active colour exactly while one of its pads is
/// pressed (has sent a note-on and no note-off since): after any messages,
/// the colour last sent for a section is its active colour when one of its
/// pads is pressed and its main colour otherwise. This holds whenever no
/// pad belongs to two sections, as in every accepted configuration.
pub proof fn law_colour_follows_held_pads(secs: Seq<SectionSpec>, msgs: Seq<[u8; 3]>, i: int)
    requires
        pads_disjoint(secs),
        0 <= i < secs.len(),
        last_colour(secs, msgs, i) is Some,
    ensures
        last_colour(secs, msgs, i) == Some(
            colour_sysex(
                secs[i].pads,
                if section_held(secs, i, msgs) {
                    secs[i].active_colour
                } else {
                    secs[i].main_colour
                },
            ),
        ),
    decreases msgs.len(),
{
    let q = msgs.drop_last();
    let m = msgs.last();
    if m[0] == 144 && owning_section(secs, m[1]) == Some(i) {
        law_held_pads_are_pressed_pads(secs, msgs);
        let h = run(secs, q).0;
        let h2 = run(secs, msgs).0;
        assert(h2 == held_after_note(h, m[1], m[2]));
        assert(holds_any(h2, secs[i].pads) == section_held(secs, i, msgs)) by {
            if holds_any(h2, secs[i].pads) {
                let x = choose|x: u8| #[trigger] h2.contains(x) && secs[i].pads.contains(x);
                assert(pad_down(msgs, x));
            }
            if section_held(secs, i, msgs) {
                let x = choose|x: u8| secs[i].pads.contains(x) && #[trigger] pad_down(msgs, x);
                lemma_owning_section_of_member(secs, i, x);
                assert(h2.contains(x));
            }
        }
    } else {
        law_colour_follows_held_pads(secs, q, i);
        assert(section_held(secs, i, msgs) == section_held(secs, i, q)) by {
            assert forall|x: u8| secs[i].pads.contains(x) implies #[trigger] pad_down(msgs, x)
                == pad_down(q, x) by {
                if m[0] == 144 && m[1] == x {
                    lemma_owning_section(secs, x, i);
                }
            }
            if section_held(secs, i, msgs) {
                let x = choose|x: u8| secs[i].pads.contains(x) && #[trigger] pad_down(msgs, x);
                assert(pad_down(q, x));
            }
            if section_held(secs, i, q) {
                let x = choose|x: u8| secs[i].pads.contains(x) && #[trigger] pad_down(q, x);
                assert(pad_down(msgs, x));
            }
        }
    }
}

} // verus!
