//! Properties that relate several operations of the library.

use vstd::prelude::*;
use crate::corpus::Corpus;
use crate::corpus_misc::{first_pos, lemma_first_pos, lemma_no_pos};
use crate::corpus_text::{feature_text, first_text, placeholder_spec, render_lit};
use crate::query::{FeatureRelationComparison, RelOpV};
use crate::search::{nslots, rel_spec};
use crate::strs::{first_at, no_char, split_spec, str_lt};
use crate::value::FValue;
use crate::escape::{ascii_alpha, clean_name_spec, ident_char, is_clean_spec, lettered, rename_from, reserved_table, underscored};
use crate::value::{tf_decode, tf_encode, tf_escape_char};
use crate::ranges::{in_spec, lemma_spec_round_trip, runs, spec_text, spec_valid};
use crate::sorting::{lemma_push_contains_pub, lemma_sorted_same, strictly_sorted_u32};
use crate::storage::{first_occurrences, pooled_values};

verus! {

proof fn lemma_encode_front(s: Seq<char>)
    requires
        s.len() > 0,
    ensures
        tf_encode(s) == tf_escape_char(s[0]) + tf_encode(s.drop_first()),
    decreases s.len(),
{
    if s.len() == 1 {
        assert(s.drop_last() =~= Seq::<char>::empty());
        assert(s.drop_first() =~= Seq::<char>::empty());
        assert(tf_encode(Seq::<char>::empty()) =~= Seq::<char>::empty());
        assert(tf_escape_char(s[0]) + Seq::<char>::empty() =~= tf_escape_char(s[0]));
    } else {
        lemma_encode_front(s.drop_last());
        assert(s.drop_last().drop_first() =~= s.drop_first().drop_last());
        assert(s.drop_first().last() == s.last());
        assert(s.drop_last()[0] == s[0]);
        assert(tf_encode(s.drop_first()) == tf_encode(s.drop_first().drop_last()) + tf_escape_char(s.drop_first().last()));
        assert(tf_escape_char(s[0]) + tf_encode(s.drop_first()) =~= tf_escape_char(s[0]) + tf_encode(s.drop_last().drop_first())
            + tf_escape_char(s.last()));
    }
}

/// Round trip of `.tf` values: decoding the encoding of a string gives the
/// string back, whatever characters it holds.
pub proof fn lemma_tf_round_trip(s: Seq<char>)
    ensures
        tf_decode(tf_encode(s)) == s,
    decreases s.len(),
{
    if s.len() > 0 {
        lemma_encode_front(s);
        lemma_tf_round_trip(s.drop_first());
        let c = s[0];
        let rest = tf_encode(s.drop_first());
        let t = tf_escape_char(c) + rest;
        if c == '\\' || c == '\t' || c == '\n' {
            assert(t.skip(2) =~= rest);
            assert(t[0] == '\\');
        } else {
            assert(t.skip(1) =~= rest);
            assert(t[0] == c);
        }
        assert(seq![c] + s.drop_first() =~= s);
    } else {
        assert(tf_encode(s) =~= Seq::<char>::empty());
    }
}

/// Locality is symmetric: for non-slot nodes `n` and `m`, `m` is among the
/// nodes that embed `n` exactly when `n` is among the nodes that `m` embeds.
pub proof fn lemma_up_down_converse(c: Corpus, n: u32, m: u32)
    requires
        c.max_slot < n <= c.max_node,
        c.max_slot < m <= c.max_node,
    ensures
        c.up_set(n, None).contains(m) <==> c.down_set(m, None).contains(n),
{
}

proof fn lemma_reserved_clean()
    ensures
        forall|i: int| 0 <= i < reserved_table().len() ==> is_clean_spec(#[trigger] reserved_table()[i].1),
{
    let t = reserved_table();
    assert forall|i: int| 0 <= i < t.len() implies is_clean_spec(#[trigger] t[i].1) by {
        let r = t[i].1;
        assert(r.len() > 0);
        assert(ascii_alpha(r[0]));
        assert forall|k: int| 0 < k < r.len() implies ident_char(#[trigger] r[k]) by {
        }
    }
}

proof fn lemma_rename_clean(table: Seq<(Seq<char>, Seq<char>)>, s: Seq<char>)
    requires
        is_clean_spec(s),
        forall|i: int| 0 <= i < table.len() ==> is_clean_spec(#[trigger] table[i].1),
    ensures
        is_clean_spec(rename_from(table, s)),
    decreases table.len(),
{
    if table.len() > 0 && table[0].0 != s {
        assert forall|i: int| 0 <= i < table.drop_first().len() implies is_clean_spec(#[trigger] table.drop_first()[i].1) by {
            assert(table.drop_first()[i] == table[i + 1]);
        }
        lemma_rename_clean(table.drop_first(), s);
    } else if table.len() > 0 {
        assert(is_clean_spec(table[0].1));
    }
}

/// Whatever the name, `clean_name` gives a clean identifier: an ASCII letter
/// followed by letters, digits and underscores.
pub proof fn lemma_clean_name_is_clean(s: Seq<char>)
    ensures
        is_clean_spec(clean_name_spec(s)),
{
    let u = underscored(s);
    assert forall|k: int| 0 <= k < u.len() implies ident_char(#[trigger] u[k]) by {
    }
    let l = lettered(u);
    if u.len() > 0 && ascii_alpha(u[0]) {
        assert(l == u);
    } else {
        assert(l == seq!['x'] + u);
        assert forall|k: int| 0 < k < l.len() implies ident_char(#[trigger] l[k]) by {
            assert(l[k] == u[k - 1]);
        }
    }
    assert(is_clean_spec(l));
    lemma_reserved_clean();
    lemma_rename_clean(reserved_table(), l);
}

/// The distinct values of a list, in order of first occurrence, have no repeats and
/// are exactly the values of the list.
pub proof fn lemma_first_occurrences(s: Seq<Seq<char>>)
    ensures
        first_occurrences(s).no_duplicates(),
        forall|x: Seq<char>| first_occurrences(s).contains(x) <==> s.contains(x),
    decreases s.len(),
{
    if s.len() > 0 {
        let t = s.drop_last();
        lemma_first_occurrences(t);
        let f = first_occurrences(t);
        assert(s =~= t.push(s.last()));
        assert forall|x: Seq<char>| first_occurrences(s).contains(x) <==> s.contains(x) by {
            lemma_push_contains_pub(t, s.last(), x);
            lemma_push_contains_pub(f, s.last(), x);
        }
        if !f.contains(s.last()) {
            assert forall|a: int, b: int| 0 <= a < b < f.push(s.last()).len() implies f.push(s.last())[a] != f.push(s.last())[b] by {
                if b == f.len() {
                    assert(f.contains(f[a]));
                }
            }
        }
    }
}

/// The values of the entries whose node lies in `1..=max_node`.
proof fn lemma_pooled_values(data: Seq<(u32, String)>, max_node: u32)
    ensures
        forall|x: Seq<char>| pooled_values(data, max_node).contains(x) <==> exists|j: int|
            0 <= j < data.len() && 1 <= #[trigger] data[j].0 <= max_node && data[j].1@ == x,
    decreases data.len(),
{
    if data.len() > 0 {
        let t = data.drop_last();
        lemma_pooled_values(t, max_node);
        let e = data.last();
        let rest = pooled_values(t, max_node);
        assert forall|x: Seq<char>| pooled_values(data, max_node).contains(x) <==> exists|j: int|
            0 <= j < data.len() && 1 <= #[trigger] data[j].0 <= max_node && data[j].1@ == x by {
            lemma_push_contains_pub(rest, e.1@, x);
            if exists|j: int| 0 <= j < data.len() && 1 <= #[trigger] data[j].0 <= max_node && data[j].1@ == x {
                let j = choose|j: int| 0 <= j < data.len() && 1 <= #[trigger] data[j].0 <= max_node && data[j].1@ == x;
                if j < t.len() {
                    assert(t[j] == data[j]);
                }
            }
            if exists|j: int| 0 <= j < t.len() && 1 <= #[trigger] t[j].0 <= max_node && t[j].1@ == x {
                let j = choose|j: int| 0 <= j < t.len() && 1 <= #[trigger] t[j].0 <= max_node && t[j].1@ == x;
                assert(data[j] == t[j]);
            }
        }
    }
}

/// The pool of `StringPool::from_dict` has no repeats and holds exactly the values of the
/// entries whose node lies in `1..=max_node`.
pub proof fn lemma_string_pool_distinct(data: Seq<(u32, String)>, max_node: u32)
    ensures
        first_occurrences(pooled_values(data, max_node)).no_duplicates(),
        forall|x: Seq<char>| first_occurrences(pooled_values(data, max_node)).contains(x) <==> exists|j: int|
            0 <= j < data.len() && 1 <= #[trigger] data[j].0 <= max_node && data[j].1@ == x,
{
    let pv = pooled_values(data, max_node);
    lemma_first_occurrences(pv);
    lemma_pooled_values(data, max_node);
    assert forall|x: Seq<char>| first_occurrences(pv).contains(x) <==> exists|j: int|
        0 <= j < data.len() && 1 <= #[trigger] data[j].0 <= max_node && data[j].1@ == x by {
        assert(first_occurrences(pv).contains(x) == pv.contains(x));
    }
}

/// Round trip of node sets through range specifications: for a non-empty ascending
/// list of nodes `s`, `set_from_spec(spec_from_ranges(ranges_from_set(s)))` succeeds
/// (the text is valid) and gives `s` back: any ascending list of the nodes the text
/// names is `s`.
pub proof fn lemma_range_round_trip(s: Seq<u32>, v: Seq<u32>)
    requires
        s.len() > 0,
        strictly_sorted_u32(s),
        strictly_sorted_u32(v),
        forall|n: u32| v.contains(n) <==> in_spec(spec_text(runs(s)), n),
    ensures
        spec_valid(spec_text(runs(s))),
        v == s,
{
    lemma_spec_round_trip(s);
    lemma_sorted_same(v, s);
}

// ---------------------------------------------------------------------------
// Relations between nodes by their slots
// ---------------------------------------------------------------------------

/// The first slot of `n` as a number: `n` itself for a slot, else the first of its
/// slot list.
pub open spec fn first_slot_of(c: Corpus, n: u32) -> Option<int> {
    if n <= c.max_slot {
        Some(n as int)
    } else {
        match c.oslots_of(n) {
            Some(s) => if s.len() > 0 { Some(s[0] as int) } else { None },
            None => None,
        }
    }
}

/// The last slot of `n` as a number: `n` itself for a slot, else the last of its slot
/// list.
pub open spec fn last_slot_of(c: Corpus, n: u32) -> Option<int> {
    if n <= c.max_slot {
        Some(n as int)
    } else {
        match c.oslots_of(n) {
            Some(s) => if s.len() > 0 { Some(s[s.len() - 1] as int) } else { None },
            None => None,
        }
    }
}

/// Two numbers are at most `d` apart.
pub open spec fn apart_at_most(a: int, b: int, d: int) -> bool {
    a - d <= b && b <= a + d
}

/// The relations by slot position compare the first and last slots of the two nodes:
/// `=k:` the first slots, `:k=` the last slots, `:k:` both, at most `k` apart; `=:`,
/// `:=` and `::` the same first, last or both slots; `<<` and `>>` the whole of one
/// node before the other; `<:` and `:>` one node right after the other; `<k:` and
/// `:k>` before or after, at most `k` slots in between. Each holds only when the slots
/// it compares exist.
pub proof fn lemma_slot_relations(c: Corpus, l: u32, r: u32, d: u32)
    ensures
        rel_spec(c, RelOpV::NearFirstSlot(d), l, r) <==> (first_slot_of(c, l) is Some && first_slot_of(c, r) is Some
            && apart_at_most(first_slot_of(c, l)->0, first_slot_of(c, r)->0, d as int)),
        rel_spec(c, RelOpV::NearLastSlot(d), l, r) <==> (last_slot_of(c, l) is Some && last_slot_of(c, r) is Some
            && apart_at_most(last_slot_of(c, l)->0, last_slot_of(c, r)->0, d as int)),
        rel_spec(c, RelOpV::NearBoundary(d), l, r) <==> (first_slot_of(c, l) is Some && first_slot_of(c, r) is Some
            && last_slot_of(c, l) is Some && last_slot_of(c, r) is Some
            && apart_at_most(first_slot_of(c, l)->0, first_slot_of(c, r)->0, d as int)
            && apart_at_most(last_slot_of(c, l)->0, last_slot_of(c, r)->0, d as int)),
        rel_spec(c, RelOpV::SameFirstSlot, l, r) <==> (first_slot_of(c, l) is Some && first_slot_of(c, l) == first_slot_of(c, r)),
        rel_spec(c, RelOpV::SameLastSlot, l, r) <==> (last_slot_of(c, l) is Some && last_slot_of(c, l) == last_slot_of(c, r)),
        rel_spec(c, RelOpV::SameBoundary, l, r) <==> (first_slot_of(c, l) is Some && first_slot_of(c, l) == first_slot_of(c, r)
            && last_slot_of(c, l) is Some && last_slot_of(c, l) == last_slot_of(c, r)),
        rel_spec(c, RelOpV::SlotBefore, l, r) <==> (last_slot_of(c, l) is Some && first_slot_of(c, r) is Some
            && last_slot_of(c, l)->0 < first_slot_of(c, r)->0),
        rel_spec(c, RelOpV::SlotAfter, l, r) <==> (first_slot_of(c, l) is Some && last_slot_of(c, r) is Some
            && first_slot_of(c, l)->0 > last_slot_of(c, r)->0),
        rel_spec(c, RelOpV::AdjacentBefore, l, r) <==> (last_slot_of(c, l) is Some && first_slot_of(c, r) is Some
            && last_slot_of(c, l)->0 + 1 == first_slot_of(c, r)->0),
        rel_spec(c, RelOpV::AdjacentAfter, l, r) <==> (first_slot_of(c, l) is Some && last_slot_of(c, r) is Some
            && last_slot_of(c, r)->0 + 1 == first_slot_of(c, l)->0),
        rel_spec(c, RelOpV::NearBefore(d), l, r) <==> (last_slot_of(c, l) is Some && first_slot_of(c, r) is Some
            && last_slot_of(c, l)->0 < first_slot_of(c, r)->0 && first_slot_of(c, r)->0 - last_slot_of(c, l)->0 <= d + 1),
        rel_spec(c, RelOpV::NearAfter(d), l, r) <==> (first_slot_of(c, l) is Some && last_slot_of(c, r) is Some
            && last_slot_of(c, r)->0 < first_slot_of(c, l)->0 && first_slot_of(c, l)->0 - last_slot_of(c, r)->0 <= d + 1),
{
}

// ---------------------------------------------------------------------------
// Embedding
// ---------------------------------------------------------------------------

/// Every slot of `cs`, position by position, occurs among `ps`.
pub open spec fn every_slot_in(cs: Seq<u32>, ps: Seq<u32>) -> bool {
    forall|i: int| 0 <= i < cs.len() ==> ps.contains(#[trigger] cs[i])
}

/// Embedding by slots: a node contains a slot exactly when the slot is among the
/// node's slots; a node contains a non-slot node exactly when both have slot lists and
/// every slot of the child is a slot of the parent. The nodes that embed a non-slot
/// node are exactly the other non-slot nodes whose slots include all of its slots.
pub proof fn lemma_embedding_by_slots(c: Corpus, parent: u32, child: u32)
    ensures
        child <= c.max_slot ==> (c.contains_spec(parent, child) <==> (c.oslots_of(parent) is Some
            && exists|k: int| 0 <= k < c.oslots_of(parent)->0.len() && c.oslots_of(parent)->0[k] == child)),
        child > c.max_slot ==> (c.contains_spec(parent, child) <==> (c.oslots_of(child) is Some && c.oslots_of(parent) is Some
            && every_slot_in(c.oslots_of(child)->0, c.oslots_of(parent)->0))),
        child > c.max_slot ==> (c.up_set(child, None).contains(parent) <==> (c.max_slot < parent <= c.max_node && parent != child
            && c.oslots_of(child) is Some && c.oslots_of(parent) is Some
            && every_slot_in(c.oslots_of(child)->0, c.oslots_of(parent)->0))),
{
    if child > c.max_slot && c.oslots_of(child) is Some && c.oslots_of(parent) is Some {
        let cs = c.oslots_of(child)->0;
        let ps = c.oslots_of(parent)->0;
        let all_in = forall|s: u32| #[trigger] cs.contains(s) ==> ps.contains(s);
        if all_in {
            assert forall|i: int| 0 <= i < cs.len() implies ps.contains(#[trigger] cs[i]) by {
                assert(cs.contains(cs[i]));
            }
        }
        if every_slot_in(cs, ps) {
            assert forall|s: u32| #[trigger] cs.contains(s) implies ps.contains(s) by {
                let i = choose|i: int| 0 <= i < cs.len() && cs[i] == s;
                assert(ps.contains(cs[i]));
            }
        }
        assert(c.contains_spec(parent, child) == all_in);
    }
    assert(c.allowed(parent, None));
}

// ---------------------------------------------------------------------------
// Escapes of `.tf` values
// ---------------------------------------------------------------------------

/// A text without backslashes.
pub open spec fn no_backslash(s: Seq<char>) -> bool {
    forall|i: int| 0 <= i < s.len() ==> s[i] != '\\'
}

/// A text without backslashes decodes to itself, in front of whatever follows it.
proof fn lemma_decode_plain(a: Seq<char>, b: Seq<char>)
    requires
        no_backslash(a),
    ensures
        tf_decode(a + b) == a + tf_decode(b),
    decreases a.len(),
{
    if a.len() > 0 {
        let rest = a.drop_first();
        lemma_decode_plain(rest, b);
        assert((a + b)[0] == a[0]);
        assert((a + b).skip(1) =~= rest + b);
        assert(seq![a[0]] + (rest + tf_decode(b)) =~= a + tf_decode(b));
    } else {
        assert(a + b =~= b);
        assert(a + tf_decode(b) =~= tf_decode(b));
    }
}

/// Decoding a `.tf` value: text without backslashes stands for itself, and the escapes
/// backslash-backslash, backslash-t and backslash-n stand for a backslash, a tab and a
/// newline.
pub proof fn lemma_tf_decode_escapes(a: Seq<char>, b: Seq<char>)
    requires
        no_backslash(a),
    ensures
        tf_decode(a) == a,
        tf_decode(a + seq!['\\', 't'] + b) == a + seq!['\t'] + tf_decode(b),
        tf_decode(a + seq!['\\', 'n'] + b) == a + seq!['\n'] + tf_decode(b),
        tf_decode(a + seq!['\\', '\\'] + b) == a + seq!['\\'] + tf_decode(b),
{
    lemma_decode_plain(a, seq![]);
    assert(a + Seq::<char>::empty() =~= a);
    assert(tf_decode(Seq::<char>::empty()) =~= Seq::<char>::empty());
    let t = seq!['\\', 't'] + b;
    let n = seq!['\\', 'n'] + b;
    let s = seq!['\\', '\\'] + b;
    lemma_decode_plain(a, t);
    lemma_decode_plain(a, n);
    lemma_decode_plain(a, s);
    assert(a + seq!['\\', 't'] + b =~= a + t);
    assert(a + seq!['\\', 'n'] + b =~= a + n);
    assert(a + seq!['\\', '\\'] + b =~= a + s);
    assert(t.skip(2) =~= b);
    assert(n.skip(2) =~= b);
    assert(s.skip(2) =~= b);
    assert(a + (seq!['\t'] + tf_decode(b)) =~= a + seq!['\t'] + tf_decode(b));
    assert(a + (seq!['\n'] + tf_decode(b)) =~= a + seq!['\n'] + tf_decode(b));
    assert(a + (seq!['\\'] + tf_decode(b)) =~= a + seq!['\\'] + tf_decode(b));
}

/// Encoding a `.tf` value, character by character: a tab becomes backslash-t, a
/// newline backslash-n, a backslash two backslashes, and every other character stays.
pub proof fn lemma_tf_encode_escapes(s: Seq<char>, ch: char)
    ensures
        tf_encode(Seq::<char>::empty()) == Seq::<char>::empty(),
        ch == '\t' ==> tf_encode(s.push(ch)) == tf_encode(s) + seq!['\\', 't'],
        ch == '\n' ==> tf_encode(s.push(ch)) == tf_encode(s) + seq!['\\', 'n'],
        ch == '\\' ==> tf_encode(s.push(ch)) == tf_encode(s) + seq!['\\', '\\'],
        ch != '\t' && ch != '\n' && ch != '\\' ==> tf_encode(s.push(ch)) == tf_encode(s).push(ch),
{
    assert(s.push(ch).drop_last() =~= s);
    assert(tf_encode(s) + seq![ch] =~= tf_encode(s).push(ch));
}

// ---------------------------------------------------------------------------
// Placeholders of text formats
// ---------------------------------------------------------------------------

/// The string value of feature `name` at `slot`, empty without one.
pub open spec fn string_at(c: Corpus, name: Seq<char>, slot: u32) -> Seq<char> {
    match c.nf(name) {
        Some(f) => if f.values@.contains_key(slot) {
            match f.values@[slot]@ {
                FValue::Str(s) => s,
                FValue::Int(_) => seq![],
            }
        } else {
            seq![]
        },
        None => seq![],
    }
}

/// The first non-empty value among the features gives a placeholder its text.
proof fn lemma_first_text_index(c: Corpus, names: Seq<Seq<char>>, slot: u32)
    ensures
        forall|k: int| 0 <= k < names.len() && string_at(c, names[k], slot).len() > 0
            && (forall|j: int| 0 <= j < k ==> string_at(c, #[trigger] names[j], slot).len() == 0)
            ==> first_text(c, names, slot) == Some(string_at(c, names[k], slot)),
        (forall|j: int| 0 <= j < names.len() ==> string_at(c, #[trigger] names[j], slot).len() == 0)
            ==> first_text(c, names, slot) is None,
    decreases names.len(),
{
    if names.len() > 0 {
        lemma_first_text_index(c, names.drop_first(), slot);
        assert(string_at(c, names[0], slot) == feature_text(c, names[0], slot));
        assert forall|k: int| 0 <= k < names.len() && string_at(c, names[k], slot).len() > 0
            && (forall|j: int| 0 <= j < k ==> string_at(c, #[trigger] names[j], slot).len() == 0)
            implies first_text(c, names, slot) == Some(string_at(c, names[k], slot)) by {
            if k > 0 {
                assert(string_at(c, names[0], slot).len() == 0);
                assert(names.drop_first()[k - 1] == names[k]);
                assert forall|j: int| 0 <= j < k - 1 implies string_at(c, #[trigger] names.drop_first()[j], slot).len() == 0 by {
                    assert(names.drop_first()[j] == names[j + 1]);
                }
            }
        }
        if forall|j: int| 0 <= j < names.len() ==> string_at(c, #[trigger] names[j], slot).len() == 0 {
            assert(string_at(c, names[0], slot).len() == 0);
            assert forall|j: int| 0 <= j < names.drop_first().len() implies string_at(c, #[trigger] names.drop_first()[j], slot).len() == 0 by {
                assert(names.drop_first()[j] == names[j + 1]);
            }
        }
    }
}

/// A placeholder `f1/f2/...` (no default) renders the value of the first feature in
/// the list with a non-empty string value at the slot, and nothing when all are empty;
/// `f1/f2/...:d` renders the default `d` (its literal text) when all are empty.
pub proof fn lemma_placeholder_first_value(c: Corpus, slot: u32, features: Seq<char>, default: Option<Seq<char>>)
    requires
        no_char(features, ':'),
    ensures
        ({
            let p = match default {
                Some(d) => features + seq![':'] + d,
                None => features,
            };
            let names = split_spec(features, '/');
            &&& forall|k: int| 0 <= k < names.len() && string_at(c, names[k], slot).len() > 0
                && (forall|j: int| 0 <= j < k ==> string_at(c, #[trigger] names[j], slot).len() == 0)
                ==> placeholder_spec(c, slot, p) == string_at(c, names[k], slot)
            &&& (forall|j: int| 0 <= j < names.len() ==> string_at(c, #[trigger] names[j], slot).len() == 0)
                ==> placeholder_spec(c, slot, p) == match default {
                    Some(d) => render_lit(d),
                    None => Seq::<char>::empty(),
                }
        }),
{
    let names = split_spec(features, '/');
    lemma_first_text_index(c, names, slot);
    match default {
        Some(d) => {
            let p = features + seq![':'] + d;
            assert(p[features.len() as int] == ':');
            assert forall|j: int| 0 <= j < features.len() implies p[j] != ':' by {
                assert(p[j] == features[j]);
            }
            assert(first_at(p, ':', features.len() as int));
            lemma_first_pos(p, ':', features.len() as int);
            assert(p.take(features.len() as int) =~= features);
            assert(p.skip(features.len() as int + 1) =~= d);
        },
        None => {
            lemma_no_pos(features, ':');
        },
    }
}

/// The slots of `n`: `n` itself for a slot, else its slot list (none without one).
pub open spec fn slots_of_node(c: Corpus, n: u32) -> Seq<u32> {
    if n <= c.max_slot {
        seq![n]
    } else {
        match c.oslots_of(n) {
            Some(s) => s,
            None => seq![],
        }
    }
}

/// The relations by identity, slot sets, embedding and edges: `=` and `#` compare the
/// nodes; `==` and `##` their slot lists; `&&` and `||` whether some slot is shared;
/// `[[` and `]]` embedding; `-e>`, `<e-` and `<e>` an edge of feature `e` from the left
/// node to the right one, back, or either way (with the feature present).
pub proof fn lemma_set_relations(c: Corpus, l: u32, r: u32, e: Seq<char>)
    ensures
        rel_spec(c, RelOpV::Equal, l, r) <==> l == r,
        rel_spec(c, RelOpV::NotEqual, l, r) <==> l != r,
        rel_spec(c, RelOpV::SameSlots, l, r) <==> slots_of_node(c, l) == slots_of_node(c, r),
        rel_spec(c, RelOpV::DifferentSlots, l, r) <==> slots_of_node(c, l) != slots_of_node(c, r),
        rel_spec(c, RelOpV::Overlaps, l, r) <==> exists|s: u32|
            slots_of_node(c, l).contains(s) && #[trigger] slots_of_node(c, r).contains(s),
        rel_spec(c, RelOpV::Disjoint, l, r) <==> !exists|s: u32|
            slots_of_node(c, l).contains(s) && #[trigger] slots_of_node(c, r).contains(s),
        rel_spec(c, RelOpV::Embeds, l, r) <==> c.contains_spec(l, r),
        rel_spec(c, RelOpV::EmbeddedIn, l, r) <==> c.contains_spec(r, l),
        rel_spec(c, RelOpV::EdgeForward(e), l, r) <==> (c.ef(e) is Some && c.ef(e)->0.values@.contains_key(l)
            && c.ef(e)->0.values@[l]@.contains(r)),
        rel_spec(c, RelOpV::EdgeBackward(e), l, r) <==> (c.ef(e) is Some && c.ef(e)->0.values@.contains_key(r)
            && c.ef(e)->0.values@[r]@.contains(l)),
        rel_spec(c, RelOpV::EdgeEither(e), l, r) <==> (c.ef(e) is Some && ((c.ef(e)->0.values@.contains_key(l)
            && c.ef(e)->0.values@[l]@.contains(r)) || (c.ef(e)->0.values@.contains_key(r) && c.ef(e)->0.values@[r]@.contains(l)))),
{
    assert(slots_of_node(c, l) == nslots(c, l) && slots_of_node(c, r) == nslots(c, r));
}

/// A node has a value for a node feature.
pub open spec fn has_value(c: Corpus, f: Seq<char>, n: u32) -> bool {
    c.nf(f) is Some && c.nf(f)->0.values@.contains_key(n)
}

/// The value of a node feature at a node that has one.
pub open spec fn value_at(c: Corpus, f: Seq<char>, n: u32) -> FValue {
    c.nf(f)->0.values@[n]@
}

/// Feature relations compare the values of the two nodes: integers by their size,
/// strings by equality and character order; without a value on either side no
/// comparison holds.
pub proof fn lemma_feature_relations(c: Corpus, l: u32, r: u32, lf: Seq<char>, rf: Seq<char>)
    ensures
        !(has_value(c, lf, l) && has_value(c, rf, r)) ==> !rel_spec(c, RelOpV::FeatureCompare(lf, FeatureRelationComparison::Eq, rf), l, r)
            && !rel_spec(c, RelOpV::FeatureCompare(lf, FeatureRelationComparison::Ne, rf), l, r)
            && !rel_spec(c, RelOpV::FeatureCompare(lf, FeatureRelationComparison::Lt, rf), l, r)
            && !rel_spec(c, RelOpV::FeatureCompare(lf, FeatureRelationComparison::Gt, rf), l, r),
        has_value(c, lf, l) && has_value(c, rf, r) && value_at(c, lf, l) is Int && value_at(c, rf, r) is Int ==> {
            let a = value_at(c, lf, l)->Int_0;
            let b = value_at(c, rf, r)->Int_0;
            &&& rel_spec(c, RelOpV::FeatureCompare(lf, FeatureRelationComparison::Eq, rf), l, r) <==> a == b
            &&& rel_spec(c, RelOpV::FeatureCompare(lf, FeatureRelationComparison::Ne, rf), l, r) <==> a != b
            &&& rel_spec(c, RelOpV::FeatureCompare(lf, FeatureRelationComparison::Lt, rf), l, r) <==> a < b
            &&& rel_spec(c, RelOpV::FeatureCompare(lf, FeatureRelationComparison::Gt, rf), l, r) <==> a > b
        },
        has_value(c, lf, l) && has_value(c, rf, r) && value_at(c, lf, l) is Str && value_at(c, rf, r) is Str ==> {
            let a = value_at(c, lf, l)->Str_0;
            let b = value_at(c, rf, r)->Str_0;
            &&& rel_spec(c, RelOpV::FeatureCompare(lf, FeatureRelationComparison::Eq, rf), l, r) <==> a == b
            &&& rel_spec(c, RelOpV::FeatureCompare(lf, FeatureRelationComparison::Ne, rf), l, r) <==> a != b
            &&& rel_spec(c, RelOpV::FeatureCompare(lf, FeatureRelationComparison::Lt, rf), l, r) <==> str_lt(a, b)
            &&& rel_spec(c, RelOpV::FeatureCompare(lf, FeatureRelationComparison::Gt, rf), l, r) <==> (a != b && !str_lt(a, b))
        },
{
}

/// A text without backslashes renders as itself, in front of whatever follows it.
proof fn lemma_render_plain(a: Seq<char>, b: Seq<char>)
    requires
        no_backslash(a),
    ensures
        render_lit(a + b) == a + render_lit(b),
    decreases a.len(),
{
    if a.len() > 0 {
        let rest = a.drop_first();
        lemma_render_plain(rest, b);
        assert((a + b)[0] == a[0]);
        assert((a + b).drop_first() =~= rest + b);
        assert(seq![a[0]] + (rest + render_lit(b)) =~= a + render_lit(b));
    } else {
        assert(a + b =~= b);
        assert(a + render_lit(b) =~= render_lit(b));
    }
}

/// Literal text in a format: text without backslashes stays as it is; backslash-t and
/// backslash-n become a tab and a newline; a backslash before another character, or
/// at the end, stays.
pub proof fn lemma_format_literal_escapes(a: Seq<char>, x: char, b: Seq<char>)
    requires
        no_backslash(a),
    ensures
        render_lit(a) == a,
        render_lit(a + seq!['\\', 't'] + b) == a + seq!['\t'] + render_lit(b),
        render_lit(a + seq!['\\', 'n'] + b) == a + seq!['\n'] + render_lit(b),
        x != 't' && x != 'n' ==> render_lit(a + seq!['\\', x] + b) == a + seq!['\\', x] + render_lit(b),
        render_lit(a + seq!['\\']) == a + seq!['\\'],
{
    lemma_render_plain(a, seq![]);
    assert(a + Seq::<char>::empty() =~= a);
    assert(render_lit(Seq::<char>::empty()) =~= Seq::<char>::empty());
    let t = seq!['\\', 't'] + b;
    let n = seq!['\\', 'n'] + b;
    let o = seq!['\\', x] + b;
    let e = seq!['\\'];
    lemma_render_plain(a, t);
    lemma_render_plain(a, n);
    lemma_render_plain(a, o);
    lemma_render_plain(a, e);
    assert(a + seq!['\\', 't'] + b =~= a + t);
    assert(a + seq!['\\', 'n'] + b =~= a + n);
    assert(a + seq!['\\', x] + b =~= a + o);
    assert(t.skip(2) =~= b);
    assert(n.skip(2) =~= b);
    assert(o.skip(2) =~= b);
    assert(a + (seq!['\t'] + render_lit(b)) =~= a + seq!['\t'] + render_lit(b));
    assert(a + (seq!['\n'] + render_lit(b)) =~= a + seq!['\n'] + render_lit(b));
    assert(a + (seq!['\\', x] + render_lit(b)) =~= a + seq!['\\', x] + render_lit(b));
}

/// The nodes that a non-slot node embeds are exactly the other non-slot nodes all of
/// whose slots are among its slots.
pub proof fn lemma_embedded_nodes_by_slots(c: Corpus, parent: u32, child: u32)
    requires
        child > c.max_slot,
    ensures
        c.down_set(parent, None).contains(child) <==> (c.max_slot < child <= c.max_node && parent != child
            && c.oslots_of(child) is Some && c.oslots_of(parent) is Some
            && every_slot_in(c.oslots_of(child)->0, c.oslots_of(parent)->0)),
{
    lemma_embedding_by_slots(c, parent, child);
    assert(c.allowed(child, None));
}

} // verus!
