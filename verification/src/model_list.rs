//! The model catalogue behind `--model-list` and the model picker: which
//! pricing entries become rows, how rows are named and ordered, and which
//! rows a filter keeps.
//!
//! Prices stay what the catalogue says per token, carried as the bit
//! patterns of `f64` values; converting them to dollars per million tokens
//! and printing them is left to the binary.

use vstd::prelude::*;
use crate::text::{
    chars_eq, chars_of, has_prefix, push_all, push_str_chars, slice_of, starts_with_at,
    string_of,
};

verus! {

broadcast use vstd::seq_lib::group_to_multiset_ensures;

// ---------------------------------------------------------------------------
// Rows
// ---------------------------------------------------------------------------

/// One model, in the `provider/model-name` form the configuration uses.
#[derive(Debug)]
pub struct Row {
    pub qualified: String,
    /// Input price per token (bits of an `f64`), when known.
    pub input_cost_per_token: Option<u64>,
    /// Output price per token (bits of an `f64`), when known.
    pub output_cost_per_token: Option<u64>,
    /// Shown in place of a price (local models).
    pub note: Option<&'static str>,
}

pub struct RowView {
    pub qualified: Seq<char>,
    pub input_cost_per_token: Option<u64>,
    pub output_cost_per_token: Option<u64>,
    pub note: Option<Seq<char>>,
}

impl View for Row {
    type V = RowView;

    open spec fn view(&self) -> RowView {
        RowView {
            qualified: self.qualified@,
            input_cost_per_token: self.input_cost_per_token,
            output_cost_per_token: self.output_cost_per_token,
            note: match self.note {
                Some(n) => Some(n@),
                None => None,
            },
        }
    }
}

pub open spec fn row_views(rows: Seq<Row>) -> Seq<RowView> {
    rows.map_values(|r: Row| r@)
}

// ---------------------------------------------------------------------------
// Ordering by name
// ---------------------------------------------------------------------------

/// Lexicographic order of names by code point (the order of `String`s).
pub open spec fn name_lt(a: Seq<char>, b: Seq<char>) -> bool
    decreases a.len(),
{
    if b.len() == 0 {
        false
    } else if a.len() == 0 {
        true
    } else if a[0] != b[0] {
        a[0] < b[0]
    } else {
        name_lt(a.drop_first(), b.drop_first())
    }
}

pub open spec fn name_le(a: Seq<char>, b: Seq<char>) -> bool {
    !name_lt(b, a)
}

pub proof fn lemma_name_lt_irreflexive(a: Seq<char>)
    ensures
        !name_lt(a, a),
    decreases a.len(),
{
    if a.len() > 0 {
        lemma_name_lt_irreflexive(a.drop_first());
    }
}

pub proof fn lemma_name_lt_transitive(a: Seq<char>, b: Seq<char>, c: Seq<char>)
    requires
        name_lt(a, b),
        name_lt(b, c),
    ensures
        name_lt(a, c),
    decreases a.len(),
{
    if a.len() > 0 && b.len() > 0 && c.len() > 0 {
        if a[0] == b[0] && b[0] == c[0] {
            lemma_name_lt_transitive(a.drop_first(), b.drop_first(), c.drop_first());
        }
    }
}

pub proof fn lemma_name_lt_total(a: Seq<char>, b: Seq<char>)
    ensures
        a == b || name_lt(a, b) || name_lt(b, a),
    decreases a.len(),
{
    if a.len() > 0 && b.len() > 0 && a[0] == b[0] {
        lemma_name_lt_total(a.drop_first(), b.drop_first());
        if a.drop_first() == b.drop_first() {
            assert(a =~= seq![a[0]] + a.drop_first());
            assert(b =~= seq![b[0]] + b.drop_first());
        }
    } else if a.len() == 0 && b.len() == 0 {
        assert(a =~= b);
    }
}

/// Whether the rows are in ascending order of name.
pub open spec fn sorted_by_name(rows: Seq<RowView>) -> bool {
    forall|i: int, j: int|
        0 <= i < j < rows.len() ==> name_le(#[trigger] rows[i].qualified, #[trigger] rows[j].qualified)
}

/// Whether `a` sorts strictly before `b`.
pub fn name_less(a: &[char], b: &[char]) -> (r: bool)
    ensures
        r == name_lt(a@, b@),
{
    let mut i: usize = 0;
    assert(a@.subrange(0, a@.len() as int) =~= a@);
    assert(b@.subrange(0, b@.len() as int) =~= b@);
    while i < a.len() && i < b.len() && a[i] == b[i]
        invariant
            i <= a@.len(),
            i <= b@.len(),
            name_lt(a@, b@) == name_lt(
                a@.subrange(i as int, a@.len() as int),
                b@.subrange(i as int, b@.len() as int),
            ),
        decreases a@.len() - i,
    {
        assert(a@.subrange(i as int, a@.len() as int).drop_first() =~= a@.subrange(
            i + 1,
            a@.len() as int,
        ));
        assert(b@.subrange(i as int, b@.len() as int).drop_first() =~= b@.subrange(
            i + 1,
            b@.len() as int,
        ));
        i = i + 1;
    }
    if i == b.len() {
        false
    } else if i == a.len() {
        true
    } else {
        a[i] < b[i]
    }
}

/// Where a row named `name` goes among `s`: after every row whose name does
/// not sort after it.
pub open spec fn insert_pos(s: Seq<RowView>, name: Seq<char>) -> nat
    decreases s.len(),
{
    if s.len() == 0 {
        0
    } else if name_lt(name, s[0].qualified) {
        0
    } else {
        1 + insert_pos(s.drop_first(), name)
    }
}

/// The rows ordered by name, rows of equal name in the order they came in
/// (what a stable sort by name gives).
pub open spec fn sort_by_name(s: Seq<RowView>) -> Seq<RowView>
    decreases s.len(),
{
    if s.len() == 0 {
        s
    } else {
        let t = sort_by_name(s.drop_last());
        t.insert(insert_pos(t, s.last().qualified) as int, s.last())
    }
}

/// `insert_pos` is the first index whose name sorts after `name`.
proof fn lemma_insert_pos(s: Seq<RowView>, name: Seq<char>, p: int)
    requires
        0 <= p <= s.len(),
        forall|j: int| 0 <= j < p ==> !name_lt(name, #[trigger] s[j].qualified),
        p < s.len() ==> name_lt(name, s[p].qualified),
    ensures
        insert_pos(s, name) == p,
    decreases p,
{
    if p > 0 {
        assert(!name_lt(name, s[0].qualified));
        assert forall|j: int| 0 <= j < p - 1 implies !name_lt(
            name,
            #[trigger] s.drop_first()[j].qualified,
        ) by {
            assert(s.drop_first()[j] == s[j + 1]);
        }
        if p < s.len() {
            assert(s.drop_first()[p - 1] == s[p]);
        }
        lemma_insert_pos(s.drop_first(), name, p - 1);
    }
}

/// The rows in ascending order of name; rows of equal name keep their order.
pub fn sort_rows(rows: Vec<Row>) -> (out: Vec<Row>)
    ensures
        row_views(out@) == sort_by_name(row_views(rows@)),
        sorted_by_name(row_views(out@)),
        row_views(out@).to_multiset() == row_views(rows@).to_multiset(),
{
    let ghost orig = row_views(rows@);
    let mut input = rows;
    let mut out: Vec<Row> = Vec::new();
    let mut names: Vec<Vec<char>> = Vec::new();
    let ghost mut k: int = 0;
    proof {
        assert(orig.subrange(0, 0) =~= Seq::<RowView>::empty());
        assert(row_views(input@) =~= orig.subrange(0, orig.len() as int));
    }
    while input.len() > 0
        invariant
            0 <= k <= orig.len(),
            input@.len() == orig.len() - k,
            row_views(input@) == orig.subrange(k, orig.len() as int),
            sorted_by_name(row_views(out@)),
            row_views(out@).to_multiset() == orig.subrange(0, k).to_multiset(),
            row_views(out@) == sort_by_name(orig.subrange(0, k)),
            names@.len() == out@.len(),
            forall|j: int| 0 <= j < out@.len() ==> #[trigger] names@[j]@ == out@[j].qualified@,
        decreases input@.len(),
    {
        let ghost before = input@;
        let x = input.remove(0);
        proof {
            let bv = row_views(before);
            assert(bv == orig.subrange(k, orig.len() as int));
            assert(bv[0] == before[0]@);
            assert(input@ == before.remove(0));
            assert forall|j: int| 0 <= j < input@.len() implies #[trigger] row_views(input@)[j]
                == orig.subrange(k + 1, orig.len() as int)[j] by {
                assert(row_views(input@)[j] == input@[j]@);
                assert(input@[j] == before[j + 1]);
                assert(bv[j + 1] == before[j + 1]@);
            }
            assert(row_views(input@) =~= orig.subrange(k + 1, orig.len() as int));
        }
        assert(x@ == orig[k]);
        let xname = chars_of(x.qualified.as_str());
        let ghost outv = row_views(out@);
        let mut pos: usize = 0;
        while pos < out.len() && !name_less(xname.as_slice(), names[pos].as_slice())
            invariant
                pos <= out@.len() == names@.len(),
                outv == row_views(out@),
                xname@ == x.qualified@,
                forall|j: int| 0 <= j < out@.len() ==> #[trigger] names@[j]@ == out@[j].qualified@,
                forall|j: int| 0 <= j < pos ==> name_le(#[trigger] outv[j].qualified, xname@),
            decreases out@.len() - pos,
        {
            pos = pos + 1;
        }
        proof {
            assert forall|j: int| 0 <= j < pos implies !name_lt(
                x@.qualified,
                #[trigger] outv[j].qualified,
            ) by {
                assert(name_le(outv[j].qualified, xname@));
            }
            lemma_insert_pos(outv, x@.qualified, pos as int);
            // Everything from `pos` on sorts after `x`.
            assert forall|j: int| pos <= j < outv.len() implies name_le(
                xname@,
                #[trigger] outv[j].qualified,
            ) by {
                let p = outv[pos as int].qualified;
                assert(name_lt(xname@, p));
                if j > pos {
                    assert(name_le(p, outv[j].qualified));
                }
                if name_lt(outv[j].qualified, xname@) {
                    lemma_name_lt_transitive(outv[j].qualified, xname@, p);
                    if j == pos {
                        lemma_name_lt_irreflexive(p);
                    }
                }
            }
        }
        let ghost xv = x@;
        out.insert(pos, x);
        names.insert(pos, xname);
        proof {
            let nv = outv.insert(pos as int, xv);
            assert(row_views(out@) =~= nv);
            assert forall|i: int, j: int| 0 <= i < j < nv.len() implies name_le(
                #[trigger] nv[i].qualified,
                #[trigger] nv[j].qualified,
            ) by {
                if i < pos && j < pos {
                    assert(nv[i] == outv[i] && nv[j] == outv[j]);
                } else if i < pos && j == pos {
                    assert(nv[i] == outv[i]);
                } else if i < pos && j > pos {
                    assert(nv[i] == outv[i] && nv[j] == outv[j - 1]);
                } else if i == pos {
                    assert(nv[j] == outv[j - 1]);
                } else {
                    assert(nv[i] == outv[i - 1] && nv[j] == outv[j - 1]);
                }
            }
            assert(orig.subrange(0, k + 1) =~= orig.subrange(0, k).push(orig[k]));
            assert(orig.subrange(0, k + 1).drop_last() =~= orig.subrange(0, k));
            assert(orig.subrange(0, k + 1).last() == xv);
            vstd::seq_lib::to_multiset_insert(outv, pos as int, xv);
            assert forall|j: int| 0 <= j < out@.len() implies #[trigger] names@[j]@
                == out@[j].qualified@ by {
                if j < pos {
                } else if j > pos {
                }
            }
            k = k + 1;
        }
    }
    proof {
        assert(orig.subrange(0, k) =~= orig);
    }
    out
}

// ---------------------------------------------------------------------------
// Pricing catalogue
// ---------------------------------------------------------------------------

/// What the catalogue says of one model id.
#[derive(Debug)]
pub struct PricingEntry {
    pub litellm_provider: Option<String>,
    /// Price per input token (bits of an `f64`).
    pub input_cost_per_token: Option<u64>,
    /// Price per output token (bits of an `f64`).
    pub output_cost_per_token: Option<u64>,
    pub mode: Option<String>,
}

pub struct PricingEntryView {
    pub litellm_provider: Option<Seq<char>>,
    pub input_cost_per_token: Option<u64>,
    pub output_cost_per_token: Option<u64>,
    pub mode: Option<Seq<char>>,
}

impl View for PricingEntry {
    type V = PricingEntryView;

    open spec fn view(&self) -> PricingEntryView {
        PricingEntryView {
            litellm_provider: crate::text::opt_view(self.litellm_provider),
            input_cost_per_token: self.input_cost_per_token,
            output_cost_per_token: self.output_cost_per_token,
            mode: crate::text::opt_view(self.mode),
        }
    }
}

/// The catalogue as `(model id, entry)` pairs, in id order.
pub open spec fn entry_views(entries: Seq<(String, PricingEntry)>) -> Seq<
    (Seq<char>, PricingEntryView),
> {
    entries.map_values(|e: (String, PricingEntry)| (e.0@, e.1@))
}

/// The key of the catalogue's schema example, which is no model.
pub open spec fn sample_spec_key() -> Seq<char> {
    "sample_spec"@
}

/// The catalogue as a map from model id to entry: every entry but the
/// schema example and those that did not have the expected shape, a later
/// entry for an id replacing an earlier one.
pub open spec fn kept_map(raw: Seq<(Seq<char>, Option<PricingEntryView>)>) -> Map<
    Seq<char>,
    PricingEntryView,
>
    decreases raw.len(),
{
    if raw.len() == 0 {
        Map::empty()
    } else {
        let m = kept_map(raw.drop_last());
        let (k, e) = raw.last();
        match e {
            Some(v) => if k != sample_spec_key() {
                m.insert(k, v)
            } else {
                m
            },
            None => m,
        }
    }
}

/// `es` lists the map `m`: each id once, in ascending order, with its entry.
pub open spec fn lists_catalogue(
    es: Seq<(Seq<char>, PricingEntryView)>,
    m: Map<Seq<char>, PricingEntryView>,
) -> bool {
    &&& forall|i: int, j: int| 0 <= i < j < es.len() ==> name_lt(#[trigger] es[i].0, #[trigger] es[j].0)
    &&& forall|i: int| 0 <= i < es.len() ==> #[trigger] m.contains_key(es[i].0) && m[es[i].0] == es[i].1
    &&& forall|k: Seq<char>| #[trigger] m.contains_key(k) ==> exists|i: int| 0 <= i < es.len() && es[i].0 == k
}

pub open spec fn raw_views(raw: Seq<(String, Option<PricingEntry>)>) -> Seq<
    (Seq<char>, Option<PricingEntryView>),
> {
    raw.map_values(
        |e: (String, Option<PricingEntry>)|
            (
                e.0@,
                match e.1 {
                    Some(v) => Some(v@),
                    None => None,
                },
            ),
    )
}

proof fn lemma_list_rest(
    es: Seq<(Seq<char>, PricingEntryView)>,
    m: Map<Seq<char>, PricingEntryView>,
)
    requires
        lists_catalogue(es, m),
        es.len() > 0,
    ensures
        lists_catalogue(es.drop_first(), m.remove(es[0].0)),
{
    let k0 = es[0].0;
    let r = es.drop_first();
    let m2 = m.remove(k0);
    assert forall|i: int, j: int| 0 <= i < j < r.len() implies name_lt(#[trigger] r[i].0, #[trigger] r[j].0) by {
        assert(name_lt(es[i + 1].0, es[j + 1].0));
    }
    assert forall|i: int| 0 <= i < r.len() implies #[trigger] m2.contains_key(r[i].0) && m2[r[i].0] == r[i].1 by {
        assert(r[i] == es[i + 1]);
        assert(m.contains_key(es[i + 1].0));
        assert(name_lt(es[0].0, es[i + 1].0));
        if es[i + 1].0 == k0 {
            lemma_name_lt_irreflexive(k0);
        }
    }
    assert forall|kk: Seq<char>| #[trigger] m2.contains_key(kk) implies exists|i: int| 0 <= i < r.len() && r[i].0 == kk by {
        assert(m.contains_key(kk));
        let i = choose|i: int| 0 <= i < es.len() && es[i].0 == kk;
        assert(i != 0);
        assert(r[i - 1].0 == kk);
    }
}

/// A map of the catalogue has one listing only: ids in ascending order, each
/// once, with its entry.
pub proof fn lemma_catalogue_listing_unique(
    a: Seq<(Seq<char>, PricingEntryView)>,
    b: Seq<(Seq<char>, PricingEntryView)>,
    m: Map<Seq<char>, PricingEntryView>,
)
    requires
        lists_catalogue(a, m),
        lists_catalogue(b, m),
    ensures
        a == b,
    decreases a.len(),
{
    if a.len() == 0 {
        if b.len() > 0 {
            assert(m.contains_key(b[0].0));
        }
        assert(a =~= b);
    } else {
        assert(m.contains_key(a[0].0));
        if b.len() == 0 {
            assert(false);
        }
        assert(m.contains_key(b[0].0));
        let j = choose|j: int| 0 <= j < b.len() && b[j].0 == a[0].0;
        let i = choose|i: int| 0 <= i < a.len() && a[i].0 == b[0].0;
        if j > 0 {
            assert(name_lt(b[0].0, b[j].0));
            if i == 0 {
                lemma_name_lt_irreflexive(a[0].0);
            } else {
                assert(name_lt(a[0].0, a[i].0));
                lemma_name_lt_transitive(a[0].0, a[i].0, a[0].0);
                lemma_name_lt_irreflexive(a[0].0);
            }
        }
        assert(j == 0);
        assert(a[0] == b[0]);
        lemma_list_rest(a, m);
        lemma_list_rest(b, m);
        lemma_catalogue_listing_unique(a.drop_first(), b.drop_first(), m.remove(a[0].0));
        assert(a =~= seq![a[0]] + a.drop_first());
        assert(b =~= seq![b[0]] + b.drop_first());
    }
}

/// Adding `(k, v)` to a listing of `m` at the place the search found.
proof fn lemma_list_add(
    es: Seq<(Seq<char>, PricingEntryView)>,
    m: Map<Seq<char>, PricingEntryView>,
    k: Seq<char>,
    v: PricingEntryView,
    pos: int,
)
    requires
        lists_catalogue(es, m),
        0 <= pos <= es.len(),
        forall|j: int| 0 <= j < pos ==> name_lt(#[trigger] es[j].0, k),
        pos < es.len() ==> !name_lt(es[pos].0, k),
    ensures
        pos < es.len() && es[pos].0 == k ==> lists_catalogue(es.update(pos, (k, v)), m.insert(k, v)),
        !(pos < es.len() && es[pos].0 == k) ==> lists_catalogue(es.insert(pos, (k, v)), m.insert(k, v)),
{
    let m2 = m.insert(k, v);
    if pos < es.len() && es[pos].0 == k {
        let e2 = es.update(pos, (k, v));
        assert forall|i: int| 0 <= i < e2.len() implies #[trigger] m2.contains_key(e2[i].0) && m2[e2[i].0] == e2[i].1 by {
            if i != pos {
                assert(e2[i] == es[i]);
                assert(m.contains_key(es[i].0));
                if i < pos {
                    assert(name_lt(es[i].0, es[pos].0));
                } else {
                    assert(name_lt(es[pos].0, es[i].0));
                }
                if es[i].0 == k {
                    lemma_name_lt_irreflexive(k);
                }
                assert(es[i].0 != k);
            }
        }
        assert forall|kk: Seq<char>| #[trigger] m2.contains_key(kk) implies exists|i: int| 0 <= i < e2.len() && e2[i].0 == kk by {
            if kk == k {
                assert(e2[pos].0 == kk);
            } else {
                assert(m.contains_key(kk));
                let i = choose|i: int| 0 <= i < es.len() && es[i].0 == kk;
                assert(e2[i].0 == kk);
            }
        }
        assert forall|i: int, j: int| 0 <= i < j < e2.len() implies name_lt(#[trigger] e2[i].0, #[trigger] e2[j].0) by {
            assert(name_lt(es[i].0, es[j].0));
        }
    } else {
        let e2 = es.insert(pos, (k, v));
        // `k` sorts strictly before everything from `pos` on.
        if pos < es.len() {
            lemma_name_lt_total(es[pos].0, k);
        }
        assert forall|j: int| pos <= j < es.len() implies name_lt(k, #[trigger] es[j].0) by {
            if j > pos {
                assert(name_lt(es[pos].0, es[j].0));
                lemma_name_lt_transitive(k, es[pos].0, es[j].0);
            }
        }
        assert forall|j: int| 0 <= j < es.len() implies #[trigger] es[j].0 != k by {
            if es[j].0 == k {
                lemma_name_lt_irreflexive(k);
            }
        }
        assert forall|i: int, j: int| 0 <= i < j < e2.len() implies name_lt(#[trigger] e2[i].0, #[trigger] e2[j].0) by {
            if i < pos && j < pos {
                assert(e2[i] == es[i] && e2[j] == es[j]);
            } else if i < pos && j == pos {
                assert(e2[i] == es[i]);
            } else if i < pos {
                assert(e2[i] == es[i] && e2[j] == es[j - 1]);
                assert(name_lt(es[i].0, es[j - 1].0));
            } else if i == pos {
                assert(e2[j] == es[j - 1]);
            } else {
                assert(e2[i] == es[i - 1] && e2[j] == es[j - 1]);
                assert(name_lt(es[i - 1].0, es[j - 1].0));
            }
        }
        assert forall|i: int| 0 <= i < e2.len() implies #[trigger] m2.contains_key(e2[i].0) && m2[e2[i].0] == e2[i].1 by {
            if i < pos {
                assert(e2[i] == es[i]);
                assert(m.contains_key(es[i].0));
            } else if i > pos {
                assert(e2[i] == es[i - 1]);
                assert(m.contains_key(es[i - 1].0));
            }
        }
        assert forall|kk: Seq<char>| #[trigger] m2.contains_key(kk) implies exists|i: int| 0 <= i < e2.len() && e2[i].0 == kk by {
            if kk == k {
                assert(e2[pos].0 == kk);
            } else {
                assert(m.contains_key(kk));
                let i = choose|i: int| 0 <= i < es.len() && es[i].0 == kk;
                if i < pos {
                    assert(e2[i].0 == kk);
                } else {
                    assert(e2[i + 1].0 == kk);
                }
            }
        }
    }
}

/// Builds the catalogue from the raw document's `(key, entry)` pairs, an
/// entry being `None` where the value did not have the expected shape: each
/// kept id once, in ascending order, a later entry for an id replacing an
/// earlier one.
pub fn pricing_entries(raw: Vec<(String, Option<PricingEntry>)>) -> (out: Vec<
    (String, PricingEntry),
>)
    ensures
        lists_catalogue(entry_views(out@), kept_map(raw_views(raw@))),
{
    let ghost orig = raw_views(raw@);
    let sample = chars_of("sample_spec");
    let mut out: Vec<(String, PricingEntry)> = Vec::new();
    let mut names: Vec<Vec<char>> = Vec::new();
    let mut input = raw;
    let ghost mut k: int = 0;
    proof {
        assert(orig.subrange(0, 0) =~= Seq::<(Seq<char>, Option<PricingEntryView>)>::empty());
        assert(kept_map(orig.subrange(0, 0)) =~= Map::<Seq<char>, PricingEntryView>::empty());
    }
    while input.len() > 0
        invariant
            0 <= k <= orig.len(),
            input@.len() == orig.len() - k,
            forall|j: int| 0 <= j < input@.len() ==> #[trigger] raw_views(input@)[j] == orig[k + j],
            lists_catalogue(entry_views(out@), kept_map(orig.subrange(0, k))),
            names@.len() == out@.len(),
            forall|j: int| 0 <= j < names@.len() ==> #[trigger] names@[j]@ == out@[j].0@,
            sample@ == sample_spec_key(),
        decreases input@.len(),
    {
        let ghost before = input@;
        let item = input.remove(0);
        proof {
            assert(raw_views(before)[0] == orig[k]);
            assert(orig.subrange(0, k + 1).drop_last() =~= orig.subrange(0, k));
            assert forall|j: int| 0 <= j < input@.len() implies #[trigger] raw_views(input@)[j]
                == orig[k + 1 + j] by {
                assert(raw_views(before)[j + 1] == orig[k + j + 1]);
                assert(input@[j] == before[j + 1]);
            }
        }
        let (key, entry) = item;
        match entry {
            Some(e) => {
                let kv = chars_of(key.as_str());
                if !chars_eq(kv.as_slice(), sample.as_slice()) {
                    let ghost es = entry_views(out@);
                    let ghost m = kept_map(orig.subrange(0, k));
                    let mut pos: usize = 0;
                    while pos < out.len() && name_less(names[pos].as_slice(), kv.as_slice())
                        invariant
                            pos <= out@.len() == names@.len(),
                            es == entry_views(out@),
                            kv@ == key@,
                            forall|j: int| 0 <= j < names@.len() ==> #[trigger] names@[j]@ == out@[j].0@,
                            forall|j: int| 0 <= j < pos ==> name_lt(#[trigger] es[j].0, kv@),
                        decreases out@.len() - pos,
                    {
                        assert(es[pos as int].0 == out@[pos as int].0@);
                        pos = pos + 1;
                    }
                    proof {
                        if pos < out@.len() {
                            assert(es[pos as int].0 == out@[pos as int].0@);
                        }
                        lemma_list_add(es, m, key@, e@, pos as int);
                    }
                    let same = pos < out.len() && chars_eq(names[pos].as_slice(), kv.as_slice());
                    let ghost pair = (key@, e@);
                    let ghost old_names = names@;
                    let ghost old_out = out@;
                    if same {
                        out.remove(pos);
                        out.insert(pos, (key, e));
                        assert(entry_views(out@) =~= es.update(pos as int, pair));
                        assert forall|j: int| 0 <= j < names@.len() implies #[trigger] names@[j]@
                            == out@[j].0@ by {
                            if j != pos {
                                assert(out@[j] == old_out[j]);
                            }
                        }
                    } else {
                        out.insert(pos, (key, e));
                        names.insert(pos, kv);
                        assert(entry_views(out@) =~= es.insert(pos as int, pair));
                        assert forall|j: int| 0 <= j < names@.len() implies #[trigger] names@[j]@
                            == out@[j].0@ by {
                            if j > pos {
                                assert(names@[j] == old_names[j - 1]);
                                assert(out@[j] == old_out[j - 1]);
                            } else if j < pos {
                                assert(names@[j] == old_names[j]);
                                assert(out@[j] == old_out[j]);
                            }
                        }
                    }
                }
            },
            None => {},
        }
        proof {
            k = k + 1;
        }
    }
    proof {
        assert(orig.subrange(0, k) =~= orig);
    }
    out
}

// ---------------------------------------------------------------------------
// Rows of one provider
// ---------------------------------------------------------------------------

/// Whether a catalogue entry is a chat-capable model of `provider`: entries
/// without a mode are kept.
pub open spec fn keeps_entry(e: PricingEntryView, provider: Seq<char>) -> bool {
    &&& e.litellm_provider == Some(provider)
    &&& match e.mode {
        None => true,
        Some(m) => m == "chat"@ || m == "responses"@,
    }
}

/// `provider/id`, where an id already prefixed with `provider/` is not
/// prefixed again.
pub open spec fn qualified_name(provider: Seq<char>, id: Seq<char>) -> Seq<char> {
    let prefix = provider + seq!['/'];
    prefix + if has_prefix(id, prefix) {
        id.subrange(prefix.len() as int, id.len() as int)
    } else {
        id
    }
}

pub open spec fn provider_row(provider: Seq<char>, id: Seq<char>, e: PricingEntryView) -> RowView {
    RowView {
        qualified: qualified_name(provider, id),
        input_cost_per_token: e.input_cost_per_token,
        output_cost_per_token: e.output_cost_per_token,
        note: None,
    }
}

/// The rows of `provider`, in catalogue order.
pub open spec fn provider_rows(entries: Seq<(Seq<char>, PricingEntryView)>, provider: Seq<char>) -> Seq<
    RowView,
>
    decreases entries.len(),
{
    if entries.len() == 0 {
        Seq::empty()
    } else {
        let rest = provider_rows(entries.drop_last(), provider);
        let (id, e) = entries.last();
        if keeps_entry(e, provider) {
            rest.push(provider_row(provider, id, e))
        } else {
            rest
        }
    }
}

/// Of a provider's catalogue entries, exactly the chat models (mode `chat`
/// or `responses`) and the entries without a mode become rows, named
/// `provider/model`; an entry of another provider, or with any other mode
/// (image generation, audio, embedding, moderation...), adds no row.
pub proof fn lemma_provider_rows_step(
    entries: Seq<(Seq<char>, PricingEntryView)>,
    provider: Seq<char>,
    id: Seq<char>,
    e: PricingEntryView,
)
    ensures
        e.litellm_provider == Some(provider) && (e.mode is None || e.mode == Some("chat"@)
            || e.mode == Some("responses"@)) ==> provider_rows(entries.push((id, e)), provider)
            == provider_rows(entries, provider).push(
            RowView {
                qualified: qualified_name(provider, id),
                input_cost_per_token: e.input_cost_per_token,
                output_cost_per_token: e.output_cost_per_token,
                note: None,
            },
        ),
        e.litellm_provider != Some(provider) ==> provider_rows(entries.push((id, e)), provider)
            == provider_rows(entries, provider),
        (e.mode matches Some(m) && m != "chat"@ && m != "responses"@) ==> provider_rows(
            entries.push((id, e)),
            provider,
        ) == provider_rows(entries, provider),
{
    assert(entries.push((id, e)).drop_last() =~= entries);
    assert(entries.push((id, e)).last() == (id, e));
}

fn opt_eq(a: &Option<String>, b: &[char]) -> (r: bool)
    ensures
        r == (crate::text::opt_view(*a) == Some(b@)),
{
    match a {
        Some(s) => {
            let v = chars_of(s.as_str());
            chars_eq(v.as_slice(), b)
        },
        None => false,
    }
}

/// `provider/id` (see `qualified_name`).
pub fn qualify(provider: &[char], id: &str) -> (q: String)
    ensures
        q@ == qualified_name(provider@, id@),
{
    let mut prefix: Vec<char> = Vec::new();
    push_all(&mut prefix, provider);
    prefix.push('/');
    assert(prefix@ =~= provider@ + seq!['/']);
    let idv = chars_of(id);
    let mut out: Vec<char> = Vec::new();
    push_all(&mut out, prefix.as_slice());
    if starts_with_at(idv.as_slice(), 0, idv.len(), prefix.as_slice()) {
        assert(idv@.subrange(0, idv@.len() as int) =~= idv@);
        let rest = slice_of(idv.as_slice(), prefix.len(), idv.len());
        push_all(&mut out, rest.as_slice());
        assert(out@ =~= qualified_name(provider@, id@));
    } else {
        assert(idv@.subrange(0, idv@.len() as int) =~= idv@);
        push_all(&mut out, idv.as_slice());
        assert(out@ =~= qualified_name(provider@, id@));
    }
    string_of(out.as_slice())
}

/// The chat-capable models of `provider` in the catalogue, named
/// `provider/model`.
pub fn collect_provider(pricing: &[(String, PricingEntry)], provider: &str) -> (rows: Vec<Row>)
    ensures
        row_views(rows@) == provider_rows(entry_views(pricing@), provider@),
{
    let ghost es = entry_views(pricing@);
    let pv = chars_of(provider);
    let chat = chars_of("chat");
    let responses = chars_of("responses");
    let mut rows: Vec<Row> = Vec::new();
    let mut i: usize = 0;
    proof {
        assert(es.subrange(0, 0) =~= Seq::<(Seq<char>, PricingEntryView)>::empty());
    }
    while i < pricing.len()
        invariant
            i <= pricing@.len(),
            es == entry_views(pricing@),
            pv@ == provider@,
            chat@ == "chat"@,
            responses@ == "responses"@,
            row_views(rows@) == provider_rows(es.subrange(0, i as int), provider@),
        decreases pricing@.len() - i,
    {
        let (id, e) = &pricing[i];
        proof {
            assert(es[i as int] == (id@, e@));
            assert(es.subrange(0, i + 1).drop_last() =~= es.subrange(0, i as int));
        }
        let mode_ok = match &e.mode {
            None => true,
            Some(m) => {
                let mv = chars_of(m.as_str());
                chars_eq(mv.as_slice(), chat.as_slice()) || chars_eq(
                    mv.as_slice(),
                    responses.as_slice(),
                )
            },
        };
        if opt_eq(&e.litellm_provider, pv.as_slice()) && mode_ok {
            let row = Row {
                qualified: qualify(pv.as_slice(), id.as_str()),
                input_cost_per_token: e.input_cost_per_token,
                output_cost_per_token: e.output_cost_per_token,
                note: None,
            };
            let ghost old_rows = rows@;
            rows.push(row);
            assert(row_views(rows@) =~= row_views(old_rows).push(provider_row(provider@, id@, e@)));
        }
        i = i + 1;
    }
    proof {
        assert(es.subrange(0, pricing@.len() as int) =~= es);
    }
    rows
}

/// The row of a model served by the local Ollama server.
pub open spec fn ollama_row_view(name: Seq<char>) -> RowView {
    RowView {
        qualified: "ollama/"@ + name,
        input_cost_per_token: None,
        output_cost_per_token: None,
        note: Some("(local)"@),
    }
}

pub fn ollama_row(name: &str) -> (r: Row)
    ensures
        r@ == ollama_row_view(name@),
{
    let mut q: Vec<char> = Vec::new();
    push_str_chars(&mut q, "ollama/");
    push_str_chars(&mut q, name);
    Row {
        qualified: string_of(q.as_slice()),
        input_cost_per_token: None,
        output_cost_per_token: None,
        note: Some("(local)"),
    }
}

/// All rows: the OpenAI and Anthropic models of the catalogue and the local
/// Ollama models, in ascending order of name (rows of equal name in that
/// order).
pub fn collect_rows(pricing: &[(String, PricingEntry)], ollama: Vec<Row>) -> (rows: Vec<Row>)
    ensures
        row_views(rows@) == sort_by_name(
            provider_rows(entry_views(pricing@), "openai"@) + provider_rows(
                entry_views(pricing@),
                "anthropic"@,
            ) + row_views(ollama@),
        ),
        sorted_by_name(row_views(rows@)),
        row_views(rows@).to_multiset() == (provider_rows(entry_views(pricing@), "openai"@)
            + provider_rows(entry_views(pricing@), "anthropic"@) + row_views(
            ollama@,
        )).to_multiset(),
{
    let mut all = collect_provider(pricing, "openai");
    let mut anthropic = collect_provider(pricing, "anthropic");
    let mut ollama = ollama;
    let ghost a = all@;
    let ghost b = anthropic@;
    let ghost c = ollama@;
    all.append(&mut anthropic);
    all.append(&mut ollama);
    assert(row_views(all@) =~= row_views(a) + row_views(b) + row_views(c));
    sort_rows(all)
}

/// A catalogue id already prefixed with its provider names the same model
/// as the bare id.
pub proof fn lemma_qualified_prefix_once(provider: Seq<char>, bare: Seq<char>)
    requires
        !has_prefix(bare, provider + seq!['/']),
    ensures
        qualified_name(provider, provider + seq!['/'] + bare) == qualified_name(provider, bare),
        has_prefix(qualified_name(provider, bare), provider + seq!['/']),
{
    let prefix = provider + seq!['/'];
    let id = prefix + bare;
    assert(id.subrange(0, prefix.len() as int) =~= prefix);
    assert(id.subrange(prefix.len() as int, id.len() as int) =~= bare);
    assert(qualified_name(provider, bare).subrange(0, prefix.len() as int) =~= prefix);
}

// ---------------------------------------------------------------------------
// Filtering the picker
// ---------------------------------------------------------------------------

/// What `str::to_lowercase` makes of a text.
pub uninterp spec fn lowercase(s: Seq<char>) -> Seq<char>;

/// `str::to_lowercase`: the text with every character replaced by its
/// Unicode lowercase mapping, which is one or more characters; so only the
/// empty text lowercases to the empty text. The mapping itself is left to
/// the name `lowercase`.
#[verifier::external_body]
fn to_lowercase(s: &str) -> (r: String)
    ensures
        r@ == lowercase(s@),
        r@.len() == 0 <==> s@.len() == 0,
{
    s.to_lowercase()
}

/// Whether `needle` occurs in `hay`.
pub open spec fn contains_seq(hay: Seq<char>, needle: Seq<char>) -> bool {
    exists|i: int|
        0 <= i && i + needle.len() <= hay.len() && #[trigger] hay.subrange(
            i,
            i + needle.len(),
        ) == needle
}

/// Whether the picker shows a model under the typed filter: an empty filter
/// shows all, otherwise the filter must occur in the name, both lowercased.
pub open spec fn matches_filter(qualified: Seq<char>, filter: Seq<char>) -> bool {
    lowercase(filter).len() == 0 || contains_seq(lowercase(qualified), lowercase(filter))
}

/// A text occurring at any position of another, the start included, is
/// found in it.
pub proof fn lemma_contains_occurrence(hay: Seq<char>, needle: Seq<char>, i: int)
    requires
        0 <= i,
        i + needle.len() <= hay.len(),
        hay.subrange(i, i + needle.len()) == needle,
    ensures
        contains_seq(hay, needle),
{
}

/// A text found in another occurs in it at some position.
pub proof fn lemma_contains_witness(hay: Seq<char>, needle: Seq<char>)
    requires
        contains_seq(hay, needle),
    ensures
        exists|i: int|
            0 <= i && i + needle.len() <= hay.len() && #[trigger] hay.subrange(i, i + needle.len())
                == needle,
{
}

/// Every text holds each of its prefixes, itself and the empty text among
/// them.
pub proof fn lemma_contains_prefix(hay: Seq<char>, n: nat)
    requires
        n <= hay.len(),
    ensures
        contains_seq(hay, hay.subrange(0, n as int)),
        contains_seq(hay, hay),
        contains_seq(hay, Seq::<char>::empty()),
{
    lemma_contains_occurrence(hay, hay.subrange(0, n as int), 0);
    assert(hay.subrange(0, hay.len() as int) =~= hay);
    lemma_contains_occurrence(hay, hay, 0);
    assert(hay.subrange(0, 0) =~= Seq::<char>::empty());
    lemma_contains_occurrence(hay, Seq::<char>::empty(), 0);
}

/// The picker shows a model under any filter that lowercases to a piece of
/// its lowercased name, at the start (such as the provider's name) or
/// anywhere else; and under a filter that does not, it does not.
pub proof fn lemma_filter_shows_names_holding_it(qualified: Seq<char>, filter: Seq<char>, i: int)
    requires
        0 <= i,
        i + lowercase(filter).len() <= lowercase(qualified).len(),
        lowercase(qualified).subrange(i, i + lowercase(filter).len()) == lowercase(filter),
    ensures
        matches_filter(qualified, filter),
{
    lemma_contains_occurrence(lowercase(qualified), lowercase(filter), i);
}

/// A non-empty filter that occurs nowhere in the lowercased name hides the
/// model.
pub proof fn lemma_filter_hides_names_without_it(qualified: Seq<char>, filter: Seq<char>)
    requires
        lowercase(filter).len() > 0,
        forall|i: int|
            0 <= i && i + lowercase(filter).len() <= lowercase(qualified).len() ==> #[trigger] lowercase(
                qualified,
            ).subrange(i, i + lowercase(filter).len()) != lowercase(filter),
    ensures
        !matches_filter(qualified, filter),
{
}

/// Whether `needle` occurs in `hay`.
pub fn contains_chars(hay: &[char], needle: &[char]) -> (b: bool)
    ensures
        b == contains_seq(hay@, needle@),
{
    if needle.len() > hay.len() {
        return false;
    }
    if needle.len() == 0 {
        assert(hay@.subrange(0int, 0int + needle@.len()) =~= needle@);
        return true;
    }
    let last = hay.len() - needle.len();
    let mut i: usize = 0;
    while i <= last
        invariant
            last == hay@.len() - needle@.len(),
            0 < needle@.len() <= hay@.len(),
            forall|j: int|
                0 <= j < i ==> #[trigger] hay@.subrange(j, j + needle@.len()) != needle@,
        decreases last + 1 - i,
    {
        if starts_with_at(hay, i, hay.len(), needle) {
            assert(hay@.subrange(i as int, hay@.len() as int).subrange(0, needle@.len() as int)
                =~= hay@.subrange(i as int, i + needle@.len()));
            return true;
        }
        assert(hay@.subrange(i as int, hay@.len() as int).subrange(0, needle@.len() as int)
            =~= hay@.subrange(i as int, i + needle@.len()));
        i = i + 1;
    }
    false
}

pub fn model_matches(qualified: &str, filter: &str) -> (b: bool)
    ensures
        b == matches_filter(qualified@, filter@),
        filter@.len() == 0 ==> b,
{
    let needle = to_lowercase(filter);
    let nv = chars_of(needle.as_str());
    if nv.len() == 0 {
        return true;
    }
    let hay = to_lowercase(qualified);
    let hv = chars_of(hay.as_str());
    contains_chars(hv.as_slice(), nv.as_slice())
}

/// Indices, in order, of the rows among the first `n` that the filter shows.
pub open spec fn shown_rows(rows: Seq<RowView>, filter: Seq<char>, n: int) -> Seq<usize>
    decreases n,
{
    if n <= 0 {
        Seq::empty()
    } else if matches_filter(rows[n - 1].qualified, filter) {
        shown_rows(rows, filter, n - 1).push((n - 1) as usize)
    } else {
        shown_rows(rows, filter, n - 1)
    }
}

/// Which rows the model picker lists under `filter`, by index.
pub fn filter_models(rows: &[Row], filter: &str) -> (shown: Vec<usize>)
    ensures
        shown@ == shown_rows(row_views(rows@), filter@, rows@.len() as int),
        filter@.len() == 0 ==> shown@ == Seq::new(rows@.len(), |j: int| j as usize),
{
    let mut shown: Vec<usize> = Vec::new();
    let mut i: usize = 0;
    while i < rows.len()
        invariant
            i <= rows@.len(),
            shown@ == shown_rows(row_views(rows@), filter@, i as int),
            filter@.len() == 0 ==> shown@ == Seq::new(i as nat, |j: int| j as usize),
        decreases rows@.len() - i,
    {
        assert(row_views(rows@)[i as int] == rows@[i as int]@);
        let ghost before = shown@;
        if model_matches(rows[i].qualified.as_str(), filter) {
            shown.push(i);
        }
        proof {
            if filter@.len() == 0 {
                assert(shown@ =~= Seq::new((i + 1) as nat, |j: int| j as usize));
            }
        }
        i = i + 1;
    }
    shown
}

} // verus!
