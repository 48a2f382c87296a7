//! Small utilities of the corpus layer: verbosity levels, item lists, node
//! examples, file-name parts and version keys.

use vstd::prelude::*;
use crate::sorting::{sorted_unique_strings, strictly_sorted_strs};
use crate::strs::{
    all_digits, dec_int, dec_nat, from_chars, i64_to_string, join_spec, join_strings, owned, push_str,
    split_spec, split_str, str_eq, to_chars, u64_to_chars, views, is_ws, is_whitespace, starts_with_spec,
    trim_spec, trim_str, str_lt, string_eq, copy_string, str_lt_exec,
};

verus! {

broadcast use vstd::string::group_string_axioms;

// ---------------------------------------------------------------------------
// Verbosity
// ---------------------------------------------------------------------------

/// How quiet an operation should be: a flag or one of the level words.
#[derive(Debug, Clone, PartialEq, Eq)]
pub enum SilentInput {
    Bool(bool),
    Str(String),
}

pub open spec fn verbose_word() -> Seq<char> {
    seq!['v', 'e', 'r', 'b', 'o', 's', 'e']
}

pub open spec fn auto_word() -> Seq<char> {
    seq!['a', 'u', 't', 'o']
}

pub open spec fn terse_word() -> Seq<char> {
    seq!['t', 'e', 'r', 's', 'e']
}

pub open spec fn deep_word() -> Seq<char> {
    seq!['d', 'e', 'e', 'p']
}

pub open spec fn level_word(s: Seq<char>) -> bool {
    s == verbose_word() || s == auto_word() || s == terse_word() || s == deep_word()
}

/// The level word for a verbosity input: `false` is verbose, `true` is deep, a
/// level word stands for itself, and anything else (or nothing) is auto.
pub open spec fn silent_spec(value: Option<SilentInput>) -> Seq<char> {
    match value {
        None => auto_word(),
        Some(SilentInput::Bool(b)) => if b {
            deep_word()
        } else {
            verbose_word()
        },
        Some(SilentInput::Str(s)) => if level_word(s@) {
            s@
        } else {
            auto_word()
        },
    }
}

/// The logging level of a level word.
pub open spec fn level_of(w: Seq<char>) -> u32 {
    if w == verbose_word() {
        10
    } else if w == terse_word() {
        30
    } else if w == deep_word() {
        40
    } else {
        20
    }
}

fn word_verbose() -> (r: &'static str)
    ensures
        r@ == verbose_word(),
{
    proof {
        reveal_strlit("verbose");
    }
    "verbose"
}

fn word_auto() -> (r: &'static str)
    ensures
        r@ == auto_word(),
{
    proof {
        reveal_strlit("auto");
    }
    "auto"
}

fn word_terse() -> (r: &'static str)
    ensures
        r@ == terse_word(),
{
    proof {
        reveal_strlit("terse");
    }
    "terse"
}

fn word_deep() -> (r: &'static str)
    ensures
        r@ == deep_word(),
{
    proof {
        reveal_strlit("deep");
    }
    "deep"
}

/// The level word for a verbosity input.
#[allow(non_snake_case)]
pub fn silentConvert(value: Option<SilentInput>) -> (r: String)
    ensures
        r@ == silent_spec(value),
{
    match value {
        None => owned(word_auto()),
        Some(SilentInput::Bool(b)) => if b {
            owned(word_deep())
        } else {
            owned(word_verbose())
        },
        Some(SilentInput::Str(s)) => {
            if str_eq(s.as_str(), word_verbose()) || str_eq(s.as_str(), word_auto()) || str_eq(
                s.as_str(),
                word_terse(),
            ) || str_eq(s.as_str(), word_deep()) {
                s
            } else {
                owned(word_auto())
            }
        },
    }
}

/// The level words with their logging levels.
pub fn level_map() -> (r: Vec<(String, u32)>)
    ensures
        r@.len() == 4,
        r@[0].0@ == verbose_word() && r@[0].1 == 10,
        r@[1].0@ == auto_word() && r@[1].1 == 20,
        r@[2].0@ == terse_word() && r@[2].1 == 30,
        r@[3].0@ == deep_word() && r@[3].1 == 40,
{
    let mut r: Vec<(String, u32)> = Vec::new();
    r.push((owned(word_verbose()), 10));
    r.push((owned(word_auto()), 20));
    r.push((owned(word_terse()), 30));
    r.push((owned(word_deep()), 40));
    r
}

#[allow(non_snake_case)]
pub fn LEVEL_MAP() -> (r: Vec<(String, u32)>)
    ensures
        r@.len() == 4,
        r@[0].0@ == verbose_word() && r@[0].1 == 10,
        r@[1].0@ == auto_word() && r@[1].1 == 20,
        r@[2].0@ == terse_word() && r@[2].1 == 30,
        r@[3].0@ == deep_word() && r@[3].1 == 40,
{
    level_map()
}

/// The logging level for a verbosity input.
pub fn logging_level(silent: Option<SilentInput>) -> (r: u32)
    ensures
        r == level_of(silent_spec(silent)),
{
    let w = silentConvert(silent);
    let m = level_map();
    let mut i: usize = 0;
    while i < m.len()
        invariant
            0 <= i <= m.len(),
            w@ == silent_spec(silent),
            m@.len() == 4,
            m@[0].0@ == verbose_word() && m@[0].1 == 10,
            m@[1].0@ == auto_word() && m@[1].1 == 20,
            m@[2].0@ == terse_word() && m@[2].1 == 30,
            m@[3].0@ == deep_word() && m@[3].1 == 40,
            forall|j: int| 0 <= j < i ==> m@[j].0@ != w@,
        decreases m.len() - i,
    {
        if str_eq(m[i].0.as_str(), w.as_str()) {
            proof {
                lemma_words_distinct();
            }
            return m[i].1;
        }
        i += 1;
    }
    20
}

/// Sets up logging for a verbosity input and gives its level.
pub fn configure_logging(silent: Option<SilentInput>) -> (r: u32)
    ensures
        r == level_of(silent_spec(silent)),
{
    logging_level(silent)
}

/// Changes the logging level to that of a verbosity input and gives it.
pub fn set_logging_level(silent: Option<SilentInput>) -> (r: u32)
    ensures
        r == level_of(silent_spec(silent)),
{
    logging_level(silent)
}

/// Whether the platform has narrower than 64-bit addresses, with the warning
/// for that case or the confirmation for the other.
pub fn check32() -> (r: (bool, String, String))
    ensures
        r.0 == (usize::BITS < 64),
        r.0 ==> r.2@.len() == 0 && r.1@.len() > 0,
        !r.0 ==> r.1@.len() == 0 && r.2@ == "Running on 64-bit Python"@,
{
    let on32 = usize::BITS < 64;
    if on32 {
        let w = "WARNING: you are not running a 64-bit implementation of Python.\nYou may run into memory problems if you load a big data set.\nConsider installing a 64-bit Python.\n";
        proof {
            reveal_strlit("WARNING: you are not running a 64-bit implementation of Python.\nYou may run into memory problems if you load a big data set.\nConsider installing a 64-bit Python.\n");
        }
        (true, owned(w), String::new())
    } else {
        (false, String::new(), owned("Running on 64-bit Python"))
    }
}

// ---------------------------------------------------------------------------
// Item lists and sets of words
// ---------------------------------------------------------------------------

/// The characters that separate items in a list of words.
pub open spec fn item_delim(c: char) -> bool {
    c == '\n' || c == '\t' || c == ' ' || c == ','
}

/// The maximal runs of non-separator characters of `s`, in order.
pub open spec fn items_of(s: Seq<char>) -> Seq<Seq<char>>
    decreases s.len(),
{
    if s.len() == 0 {
        seq![]
    } else {
        let t = items_of(s.drop_last());
        let c = s.last();
        if item_delim(c) {
            t
        } else if s.len() >= 2 && !item_delim(s[s.len() - 2]) {
            t.update(t.len() - 1, t.last().push(c))
        } else {
            t.push(seq![c])
        }
    }
}

proof fn lemma_items_nonempty(s: Seq<char>)
    ensures
        s.len() > 0 && !item_delim(s.last()) ==> items_of(s).len() > 0,
        forall|k: int| 0 <= k < items_of(s).len() ==> (#[trigger] items_of(s)[k]).len() > 0,
    decreases s.len(),
{
    if s.len() > 0 {
        lemma_items_nonempty(s.drop_last());
        let t = items_of(s.drop_last());
        if !item_delim(s.last()) && s.len() >= 2 && !item_delim(s[s.len() - 2]) {
            assert(s.drop_last().last() == s[s.len() - 2]);
        }
    }
}

/// Pushing a string pushes its text onto the views.
proof fn lemma_views_push(v: Seq<String>, x: String)
    ensures
        views(v.push(x)) == views(v).push(x@),
        forall|y: Seq<char>| #[trigger] views(v.push(x)).contains(y) <==> (views(v).contains(y) || y == x@),
{
    assert(views(v.push(x)) =~= views(v).push(x@));
    assert forall|y: Seq<char>| #[trigger] views(v.push(x)).contains(y) <==> (views(v).contains(y) || y == x@) by {
        crate::sorting::lemma_push_contains_pub(views(v), x@, y);
    }
}

proof fn lemma_views_take(v: Seq<String>, i: int)
    requires
        0 <= i < v.len(),
    ensures
        v.take(i + 1) == v.take(i).push(v[i]),
{
    assert(v.take(i + 1) =~= v.take(i).push(v[i]));
}

proof fn lemma_words_distinct()
    ensures
        verbose_word() != auto_word(),
        verbose_word() != terse_word(),
        verbose_word() != deep_word(),
        auto_word() != terse_word(),
        auto_word() != deep_word(),
        terse_word() != deep_word(),
{
    assert(verbose_word().len() != auto_word().len());
    assert(verbose_word().len() != terse_word().len());
    assert(verbose_word().len() != deep_word().len());
    assert(auto_word().len() != terse_word().len());
    assert(auto_word()[0] != deep_word()[0]);
    assert(terse_word().len() != deep_word().len());
}

fn is_item_delim(c: char) -> (r: bool)
    ensures
        r == item_delim(c),
{
    c == '\n' || c == '\t' || c == ' ' || c == ','
}

/// The items of a list of words separated by newlines, tabs, spaces or commas.
fn helper_items(s: &str) -> (r: Vec<String>)
    ensures
        views(r@) == items_of(s@),
{
    let v = to_chars(s);
    let mut r: Vec<String> = Vec::new();
    let mut cur: Vec<char> = Vec::new();
    let mut i: usize = 0;
    while i < v.len()
        invariant
            0 <= i <= v.len(),
            v@ == s@,
            cur@.len() > 0 ==> (i > 0 && !item_delim(v@[i - 1])),
            i > 0 && !item_delim(v@[i - 1]) ==> cur@.len() > 0,
            cur@.len() > 0 ==> views(r@).push(cur@) == items_of(v@.take(i as int)),
            cur@.len() == 0 ==> views(r@) == items_of(v@.take(i as int)),
        decreases v.len() - i,
    {
        let c = v[i];
        proof {
            assert(v@.take(i + 1).drop_last() == v@.take(i as int));
            assert(v@.take(i + 1).last() == c);
            if i > 0 {
                assert(v@.take(i + 1)[i - 1] == v@[i - 1]);
            }
        }
        if is_item_delim(c) {
            if cur.len() > 0 {
                let done = from_chars(cur.as_slice());
                let ghost before = r@;
                r.push(done);
                proof {
                    assert(views(r@) =~= views(before).push(done@));
                }
                cur = Vec::new();
            }
        } else {
            let ghost before_cur = cur@;
            cur.push(c);
            proof {
                if before_cur.len() > 0 {
                    assert(cur@ == before_cur.push(c));
                    let t = items_of(v@.take(i as int));
                    assert(views(r@).push(cur@) =~= t.update(t.len() - 1, t.last().push(c)));
                } else {
                    assert(cur@ =~= seq![c]);
                }
            }
        }
        i += 1;
    }
    proof {
        assert(v@.take(v@.len() as int) == v@);
    }
    if cur.len() > 0 {
        let done = from_chars(cur.as_slice());
        let ghost before = r@;
        r.push(done);
        proof {
            assert(views(r@) =~= views(before).push(done@));
        }
    }
    r
}

/// The set of items of an optional list of words, ascending without repeats.
pub fn set_from_str(value: Option<&str>) -> (r: Vec<String>)
    ensures
        strictly_sorted_strs(views(r@)),
        forall|x: Seq<char>| views(r@).contains(x) <==> match value {
            Some(s) => items_of(s@).contains(x),
            None => false,
        },
{
    match value {
        Some(s) => {
            let items = helper_items(s);
            sorted_unique_strings(items)
        },
        None => Vec::new(),
    }
}

#[allow(non_snake_case)]
pub fn setFromStr(value: Option<&str>) -> (r: Vec<String>)
    ensures
        strictly_sorted_strs(views(r@)),
        forall|x: Seq<char>| views(r@).contains(x) <==> match value {
            Some(s) => items_of(s@).contains(x),
            None => false,
        },
{
    set_from_str(value)
}

/// Where a set of strings comes from: a list of words, a number, a list of
/// items, or a set given as its members.
#[derive(Debug, Clone, PartialEq, Eq)]
pub enum SetValue {
    Str(String),
    Int(i64),
    Items(Vec<String>),
    Members(Vec<String>),
}

/// Which items count: with `as_int` those made of digits only, otherwise the non-empty ones.
pub open spec fn item_kept(x: Seq<char>, as_int: bool) -> bool {
    if as_int {
        all_digits(x)
    } else {
        x.len() > 0
    }
}

/// The members of the set that a value stands for.
pub open spec fn set_value_has(value: Option<SetValue>, as_int: bool, x: Seq<char>) -> bool {
    match value {
        None => false,
        Some(SetValue::Members(v)) => views(v@).contains(x),
        Some(SetValue::Str(s)) => items_of(s@).contains(x) && item_kept(x, as_int),
        Some(SetValue::Items(v)) => views(v@).contains(x) && item_kept(x, as_int),
        Some(SetValue::Int(n)) => x == dec_int(n as int),
    }
}

fn kept_exec(x: &String, as_int: bool) -> (r: bool)
    ensures
        r == item_kept(x@, as_int),
{
    let v = to_chars(x.as_str());
    if as_int {
        let mut i: usize = 0;
        while i < v.len()
            invariant
                0 <= i <= v.len(),
                v@ == x@,
                as_int,
                forall|j: int| 0 <= j < i ==> crate::strs::is_digit(#[trigger] v@[j]),
            decreases v.len() - i,
        {
            if !('0' <= v[i] && v[i] <= '9') {
                assert(x@[i as int] == v@[i as int]);
                assert(!crate::strs::is_digit(x@[i as int]));
                return false;
            }
            i += 1;
        }
        true
    } else {
        v.len() > 0
    }
}

fn filter_kept(items: &Vec<String>, as_int: bool) -> (r: Vec<String>)
    ensures
        forall|x: Seq<char>| #![trigger views(r@).contains(x)] #![trigger views(items@).contains(x)]
            views(r@).contains(x) <==> (views(items@).contains(x) && item_kept(x, as_int)),
{
    let mut r: Vec<String> = Vec::new();
    let mut i: usize = 0;
    while i < items.len()
        invariant
            0 <= i <= items.len(),
            forall|x: Seq<char>| #![trigger views(r@).contains(x)] #![trigger views(items@.take(i as int)).contains(x)]
                views(r@).contains(x) <==> (views(items@.take(i as int)).contains(x) && item_kept(x, as_int)),
        decreases items.len() - i,
    {
        proof {
            lemma_views_take(items@, i as int);
            lemma_views_push(items@.take(i as int), items@[i as int]);
        }
        let keep = kept_exec(&items[i], as_int);
        let ghost before = r@;
        let ghost pre = items@.take(i as int);
        let ghost it = items@[i as int];
        assert(keep == item_kept(it@, as_int));
        if keep {
            let x = crate::strs::copy_string(&items[i]);
            r.push(x);
            proof {
                lemma_views_push(before, x);
                assert forall|y: Seq<char>| views(r@).contains(y) <==> (views(items@.take(i + 1)).contains(y) && item_kept(y, as_int)) by {
                    assert(views(r@).contains(y) <==> (views(before).contains(y) || y == x@));
                    assert(views(items@.take(i + 1)).contains(y) <==> (views(pre).contains(y) || y == it@));
                }
            }
        } else {
            proof {
                assert forall|y: Seq<char>| views(r@).contains(y) <==> (views(items@.take(i + 1)).contains(y) && item_kept(y, as_int)) by {
                    assert(views(items@.take(i + 1)).contains(y) <==> (views(pre).contains(y) || y == it@));
                }
            }
        }
        i += 1;
    }
    proof {
        assert(items@.take(items@.len() as int) == items@);
    }
    r
}

fn set_of(value: &SetValue, as_int: bool) -> (r: Vec<String>)
    ensures
        strictly_sorted_strs(views(r@)),
        forall|x: Seq<char>| views(r@).contains(x) <==> set_value_has(Some(*value), as_int, x),
{
    match value {
        SetValue::Members(v) => {
            let mut c: Vec<String> = Vec::new();
            let mut i: usize = 0;
            while i < v.len()
                invariant
                    0 <= i <= v.len(),
                    views(c@) == views(v@.take(i as int)),
                decreases v.len() - i,
            {
                let x = crate::strs::copy_string(&v[i]);
                let ghost before = c@;
                c.push(x);
                proof {
                    lemma_views_push(before, x);
                    lemma_views_take(v@, i as int);
                    lemma_views_push(v@.take(i as int), v@[i as int]);
                }
                i += 1;
            }
            proof {
                assert(v@.take(v@.len() as int) == v@);
                assert(views(c@) == views(v@));
            }
            let out = sorted_unique_strings(c);
            proof {
                assert forall|x: Seq<char>| #[trigger] views(out@).contains(x) <==> set_value_has(Some(*value), as_int, x) by {
                    assert(views(out@).contains(x) <==> views(c@).contains(x));
                    assert(views(c@) == views(v@));
                    assert(set_value_has(Some(*value), as_int, x) == views(v@).contains(x));
                }
            }
            out
        },
        SetValue::Str(s) => {
            let items = helper_items(s.as_str());
            let kept = filter_kept(&items, as_int);
            let out = sorted_unique_strings(kept);
            proof {
                assert forall|x: Seq<char>| #[trigger] views(out@).contains(x) <==> set_value_has(Some(*value), as_int, x) by {
                    assert(views(out@).contains(x) <==> views(kept@).contains(x));
                    assert(views(kept@).contains(x) <==> (views(items@).contains(x) && item_kept(x, as_int)));
                }
            }
            out
        },
        SetValue::Items(v) => {
            let kept = filter_kept(v, as_int);
            let out = sorted_unique_strings(kept);
            proof {
                assert forall|x: Seq<char>| #[trigger] views(out@).contains(x) <==> set_value_has(Some(*value), as_int, x) by {
                    assert(views(out@).contains(x) <==> views(kept@).contains(x));
                    assert(views(kept@).contains(x) <==> (views(v@).contains(x) && item_kept(x, as_int)));
                }
            }
            out
        },
        SetValue::Int(n) => {
            let mut r: Vec<String> = Vec::new();
            let t = i64_to_string(*n);
            r.push(t);
            proof {
                lemma_views_push(Seq::<String>::empty(), t);
                assert(Seq::<String>::empty().push(t) == r@);
                assert(views(Seq::<String>::empty()) =~= Seq::<Seq<char>>::empty());
            }
            r
        },
    }
}

/// The set that a value stands for, ascending without repeats.
pub fn set_from_value(value: Option<SetValue>, as_int: bool) -> (r: Vec<String>)
    ensures
        strictly_sorted_strs(views(r@)),
        forall|x: Seq<char>| views(r@).contains(x) <==> set_value_has(value, as_int, x),
{
    match value {
        None => Vec::new(),
        Some(v) => set_of(&v, as_int),
    }
}

#[allow(non_snake_case)]
pub fn setFromValue(value: Option<SetValue>, as_int: bool) -> (r: Vec<String>)
    ensures
        strictly_sorted_strs(views(r@)),
        forall|x: Seq<char>| views(r@).contains(x) <==> set_value_has(value, as_int, x),
{
    set_from_value(value, as_int)
}

/// A feature named directly, or a set of feature names given as a value.
#[derive(Debug, Clone, PartialEq, Eq)]
pub enum FlattenFeatureSpec {
    Name(String),
    Values(SetValue),
}

pub open spec fn flatten_has(f: FlattenFeatureSpec, x: Seq<char>) -> bool {
    match f {
        FlattenFeatureSpec::Name(n) => n@ == x,
        FlattenFeatureSpec::Values(v) => set_value_has(Some(v), false, x),
    }
}

/// All feature names that a list of names and name sets mentions, ascending without repeats.
pub fn flatten_to_set(features: &[FlattenFeatureSpec]) -> (r: Vec<String>)
    ensures
        strictly_sorted_strs(views(r@)),
        forall|x: Seq<char>| views(r@).contains(x) <==> exists|i: int| 0 <= i < features@.len()
            && #[trigger] flatten_has(features@[i], x),
{
    let mut all: Vec<String> = Vec::new();
    let mut i: usize = 0;
    while i < features.len()
        invariant
            0 <= i <= features.len(),
            forall|x: Seq<char>| #![trigger views(all@).contains(x)]
                views(all@).contains(x) <==> exists|j: int| 0 <= j < i && #[trigger] flatten_has(features@[j], x),
        decreases features.len() - i,
    {
        let ghost before = all@;
        let ghost f = features@[i as int];
        let part: Vec<String> = match &features[i] {
            FlattenFeatureSpec::Name(n) => {
                let mut p: Vec<String> = Vec::new();
                let t = crate::strs::copy_string(n);
                p.push(t);
                proof {
                    lemma_views_push(Seq::<String>::empty(), t);
                    assert(Seq::<String>::empty().push(t) == p@);
                    assert(views(Seq::<String>::empty()) =~= Seq::<Seq<char>>::empty());
                    assert(forall|x: Seq<char>| views(p@).contains(x) <==> flatten_has(f, x));
                }
                p
            },
            FlattenFeatureSpec::Values(v) => {
                let p = set_of(v, false);
                proof {
                    assert(forall|x: Seq<char>| views(p@).contains(x) <==> flatten_has(f, x));
                }
                p
            },
        };
        let mut k: usize = 0;
        while k < part.len()
            invariant
                0 <= k <= part.len(),
                forall|x: Seq<char>| #![trigger views(all@).contains(x)] #![trigger views(before).contains(x)]
                    #![trigger views(part@.take(k as int)).contains(x)]
                    views(all@).contains(x) <==> (views(before).contains(x) || views(part@.take(k as int)).contains(x)),
            decreases part.len() - k,
        {
            let ghost b2 = all@;
            let x = crate::strs::copy_string(&part[k]);
            all.push(x);
            proof {
                lemma_views_push(b2, x);
                lemma_views_take(part@, k as int);
                lemma_views_push(part@.take(k as int), part@[k as int]);
            }
            k += 1;
        }
        proof {
            assert(part@.take(part@.len() as int) == part@);
            assert forall|x: Seq<char>| views(all@).contains(x) <==> exists|j: int| 0 <= j < i + 1
                && #[trigger] flatten_has(features@[j], x) by {
                if views(before).contains(x) {
                    let j = choose|j: int| 0 <= j < i && #[trigger] flatten_has(features@[j], x);
                    assert(0 <= j < i + 1);
                }
                if views(part@).contains(x) {
                    assert(flatten_has(features@[i as int], x));
                }
                if exists|j: int| 0 <= j < i + 1 && #[trigger] flatten_has(features@[j], x) {
                    let j = choose|j: int| 0 <= j < i + 1 && #[trigger] flatten_has(features@[j], x);
                    if j < i {
                        assert(views(before).contains(x));
                    }
                }
            }
        }
        i += 1;
    }
    sorted_unique_strings(all)
}

// ---------------------------------------------------------------------------
// Examples of nodes
// ---------------------------------------------------------------------------

/// `t` right-aligned in a field of seven characters.
pub open spec fn pad7(t: Seq<char>) -> Seq<char> {
    if t.len() < 7 {
        Seq::new((7 - t.len()) as nat, |i: int| ' ') + t
    } else {
        t
    }
}

/// Node numbers joined by `, `.
pub open spec fn node_list(s: Seq<u32>) -> Seq<char> {
    join_spec(s.map_values(|n: u32| dec_nat(n as nat)), seq![',', ' '])
}

/// The count of nodes and the nodes themselves, or the first five and the last
/// five around ` ... ` when there are more than ten.
pub open spec fn examples_spec(s: Seq<u32>) -> Seq<char> {
    let head = pad7(dec_nat(s.len())) + seq![' ', 'x', ':', ' '];
    if s.len() <= 10 {
        head + node_list(s)
    } else {
        head + node_list(s.take(5)) + seq![' ', '.', '.', '.', ' '] + node_list(s.skip(s.len() - 5))
    }
}

fn node_list_exec(s: &[u32]) -> (r: String)
    ensures
        r@ == node_list(s@),
{
    let mut parts: Vec<String> = Vec::new();
    let mut i: usize = 0;
    while i < s.len()
        invariant
            0 <= i <= s.len(),
            views(parts@) == s@.take(i as int).map_values(|n: u32| dec_nat(n as nat)),
        decreases s.len() - i,
    {
        let t = crate::strs::u64_to_string(s[i] as u64);
        let ghost before = parts@;
        parts.push(t);
        proof {
            lemma_views_push(before, t);
            assert(s@.take(i + 1).map_values(|n: u32| dec_nat(n as nat)) =~= s@.take(i as int).map_values(
                |n: u32| dec_nat(n as nat),
            ).push(dec_nat(s@[i as int] as nat)));
        }
        i += 1;
    }
    proof {
        assert(s@.take(s@.len() as int) == s@);
        reveal_strlit(", ");
    }
    let sep = ", ";
    assert(sep@ =~= seq![',', ' ']);
    join_strings(parts.as_slice(), sep)
}

/// A short description of a node list: its size and (some of) its members.
pub fn make_examples(nodes: &[u32]) -> (r: String)
    ensures
        r@ == examples_spec(nodes@),
{
    let count = u64_to_chars(nodes.len() as u64);
    let mut head: Vec<char> = Vec::new();
    let mut k: usize = count.len();
    while k < 7
        invariant
            count.len() <= k,
            k > 7 ==> k == count.len(),
            count@ == dec_nat(nodes@.len()),
            head@ == Seq::new((k - count.len()) as nat, |i: int| ' '),
        decreases 7 - k,
    {
        head.push(' ');
        proof {
            assert(head@ =~= Seq::new((k + 1 - count.len()) as nat, |i: int| ' '));
        }
        k += 1;
    }
    proof {
        assert(head@ + count@ =~= pad7(count@) || count@.len() >= 7);
    }
    let mut out = from_chars(head.as_slice());
    crate::strs::push_chars(&mut out, count.as_slice());
    proof {
        if count@.len() >= 7 {
            assert(head@ =~= Seq::<char>::empty());
        }
        assert(out@ =~= pad7(dec_nat(nodes@.len())));
        reveal_strlit(" x: ");
        reveal_strlit(" ... ");
    }
    let ghost h0 = out@;
    push_str(&mut out, " x: ");
    if nodes.len() <= 10 {
        let l = node_list_exec(nodes);
        push_str(&mut out, l.as_str());
        proof {
            assert(out@ =~= h0 + seq![' ', 'x', ':', ' '] + node_list(nodes@));
        }
    } else {
        let a = node_list_exec(&nodes[0..5]);
        let b = node_list_exec(&nodes[nodes.len() - 5..nodes.len()]);
        push_str(&mut out, a.as_str());
        push_str(&mut out, " ... ");
        push_str(&mut out, b.as_str());
        proof {
            assert(nodes@.subrange(0, 5) =~= nodes@.take(5));
            assert(nodes@.subrange(nodes@.len() - 5, nodes@.len() as int) =~= nodes@.skip(nodes@.len() - 5));
            assert(out@ =~= h0 + seq![' ', 'x', ':', ' '] + node_list(nodes@.take(5)) + seq![' ', '.', '.', '.', ' ']
                + node_list(nodes@.skip(nodes@.len() - 5)));
        }
    }
    out
}

#[allow(non_snake_case)]
pub fn makeExamples(nodes: &[u32]) -> (r: String)
    ensures
        r@ == examples_spec(nodes@),
{
    make_examples(nodes)
}

// ---------------------------------------------------------------------------
// Version keys
// ---------------------------------------------------------------------------

/// The number of leading characters of `s` that are (or, with `digits` false,
/// are not) ASCII digits.
pub open spec fn lead_run(s: Seq<char>, digits: bool) -> nat
    decreases s.len(),
{
    if s.len() == 0 || crate::strs::is_digit(s[0]) != digits {
        0
    } else {
        1 + lead_run(s.drop_first(), digits)
    }
}

/// The sort key of one dot-separated part of a version: the value of its
/// leading digits (0 when there are none or too many), the letters that follow,
/// and the rest.
pub open spec fn version_part_key(p: Seq<char>) -> (u64, Seq<char>, Seq<char>) {
    let d = lead_run(p, true);
    let rest = p.skip(d as int);
    let a = lead_run(rest, false);
    let v = match crate::strs::parse_u64_spec(p.take(d as int)) {
        Some(v) => v,
        None => 0,
    };
    (v, rest.take(a as int), rest.skip(a as int))
}

pub open spec fn version_key_spec(s: Seq<char>) -> Seq<(u64, Seq<char>, Seq<char>)> {
    split_spec(s, '.').map_values(|p: Seq<char>| version_part_key(p))
}

pub open spec fn key_views(v: Seq<(u64, String, String)>) -> Seq<(u64, Seq<char>, Seq<char>)> {
    v.map_values(|k: (u64, String, String)| (k.0, k.1@, k.2@))
}

proof fn lemma_lead_run(s: Seq<char>, digits: bool, i: int)
    requires
        0 <= i <= s.len(),
        forall|j: int| 0 <= j < i ==> crate::strs::is_digit(#[trigger] s[j]) == digits,
        i == s.len() || crate::strs::is_digit(s[i]) != digits,
    ensures
        lead_run(s, digits) == i,
    decreases i,
{
    if i > 0 {
        assert forall|j: int| 0 <= j < i - 1 implies crate::strs::is_digit(#[trigger] s.drop_first()[j]) == digits by {
            assert(s.drop_first()[j] == s[j + 1]);
        }
        if i - 1 < s.drop_first().len() {
            assert(s.drop_first()[i - 1] == s[i]);
        }
        lemma_lead_run(s.drop_first(), digits, i - 1);
    }
}

fn lead_run_exec(v: &[char], from: usize, digits: bool) -> (r: usize)
    requires
        from <= v@.len(),
    ensures
        from <= r <= v@.len(),
        r - from == lead_run(v@.skip(from as int), digits),
{
    let mut i: usize = from;
    while i < v.len() && (('0' <= v[i] && v[i] <= '9') == digits)
        invariant
            from <= i <= v.len(),
            forall|j: int| from <= j < i ==> crate::strs::is_digit(#[trigger] v@[j]) == digits,
        decreases v.len() - i,
    {
        i += 1;
    }
    proof {
        let t = v@.skip(from as int);
        assert forall|j: int| 0 <= j < i - from implies crate::strs::is_digit(#[trigger] t[j]) == digits by {
            assert(t[j] == v@[from + j]);
        }
        if i < v.len() {
            assert(t[i - from] == v@[i as int]);
        }
        lemma_lead_run(t, digits, i - from);
    }
    i
}

fn version_part(p: &String) -> (r: (u64, String, String))
    ensures
        (r.0, r.1@, r.2@) == version_part_key(p@),
{
    let v = to_chars(p.as_str());
    let d = lead_run_exec(v.as_slice(), 0, true);
    let a = lead_run_exec(v.as_slice(), d, false);
    let digits = crate::strs::sub_chars(v.as_slice(), 0, d);
    let alpha = crate::strs::sub_chars(v.as_slice(), d, a);
    let tail = crate::strs::sub_chars(v.as_slice(), a, v.len());
    let ds = from_chars(digits.as_slice());
    let n = match crate::strs::parse_u64(ds.as_str()) {
        Some(n) => n,
        None => 0,
    };
    proof {
        assert(v@.skip(0) == v@);
        let rest = v@.skip(d as int);
        assert(digits@ =~= v@.take(d as int));
        assert(alpha@ =~= rest.take((a - d) as int));
        assert(tail@ =~= rest.skip((a - d) as int));
    }
    (n, from_chars(alpha.as_slice()), from_chars(tail.as_slice()))
}

/// The sort key of a version string: one key per dot-separated part.
pub fn version_sort(version: &str) -> (r: Vec<(u64, String, String)>)
    ensures
        key_views(r@) == version_key_spec(version@),
{
    let parts = split_str(version, '.');
    let mut r: Vec<(u64, String, String)> = Vec::new();
    let mut i: usize = 0;
    while i < parts.len()
        invariant
            0 <= i <= parts.len(),
            views(parts@) == split_spec(version@, '.'),
            key_views(r@) == views(parts@).take(i as int).map_values(|p: Seq<char>| version_part_key(p)),
        decreases parts.len() - i,
    {
        let k = version_part(&parts[i]);
        let ghost before = r@;
        r.push(k);
        proof {
            assert(key_views(r@) =~= key_views(before).push((k.0, k.1@, k.2@)));
            assert(views(parts@)[i as int] == parts@[i as int]@);
            assert(views(parts@).take(i + 1).map_values(|p: Seq<char>| version_part_key(p)) =~= views(parts@).take(
                i as int,
            ).map_values(|p: Seq<char>| version_part_key(p)).push(version_part_key(parts@[i as int]@)));
        }
        i += 1;
    }
    proof {
        assert(views(parts@).take(parts@.len() as int) =~= views(parts@));
    }
    r
}

#[allow(non_snake_case)]
pub fn versionSort(version: &str) -> (r: Vec<(u64, String, String)>)
    ensures
        key_views(r@) == version_key_spec(version@),
{
    version_sort(version)
}

// ---------------------------------------------------------------------------
// Back-ends of corpus repositories
// ---------------------------------------------------------------------------

pub open spec fn lower_char(c: char) -> char {
    if 'A' <= c <= 'Z' {
        ((c as u8) + 32) as char
    } else {
        c
    }
}

/// ASCII letters in lower case, other characters unchanged.
pub open spec fn lower_ascii(s: Seq<char>) -> Seq<char> {
    Seq::new(s.len(), |i: int| lower_char(s[i]))
}

/// The normal name of a back-end: `github` for none, `github` or `github.com`,
/// `gitlab` for `gitlab` or `gitlab.com`, otherwise the name in lower case.
pub open spec fn norm_backend(b: Option<&str>) -> Seq<char> {
    let raw = lower_ascii(crate::escape::opt_text(b));
    if raw == ""@ || raw == "github"@ || raw == "github.com"@ {
        "github"@
    } else if raw == "gitlab"@ || raw == "gitlab.com"@ {
        "gitlab"@
    } else {
        raw
    }
}

/// What follows the first `.` of `s`, or `s` where it has none.
pub open spec fn after_first_dot(s: Seq<char>) -> Seq<char> {
    if exists|i: int| crate::strs::first_at(s, '.', i) {
        s.skip((choose|i: int| crate::strs::first_at(s, '.', i)) + 1)
    } else {
        s
    }
}

/// The representation of a back-end of the given kind, for the given default
/// back-end and home directory; nothing for an unknown kind.
pub open spec fn backend_rep_spec(b: Option<&str>, kind: Seq<char>, default: Option<&str>, home: Seq<char>) -> Option<Seq<char>> {
    let nb = norm_backend(b);
    if kind == "norm"@ {
        Some(nb)
    } else if kind == "tech"@ {
        Some(if nb == "github"@ { "github"@ } else { "gitlab"@ })
    } else if kind == "name"@ {
        Some(if nb == "github"@ { "GitHub"@ } else if nb == "gitlab"@ { "GitLab"@ } else { nb })
    } else if kind == "machine"@ {
        Some(if nb == "github"@ { "github.com"@ } else if nb == "gitlab"@ { "gitlab.com"@ } else { nb })
    } else if kind == "rep"@ || kind == "spec"@ {
        Some(if default is Some && norm_backend(default) == nb { ""@ } else { "<"@ + nb + ">"@ })
    } else if kind == "clone"@ {
        Some(home + "/"@ + nb)
    } else if kind == "cache"@ {
        Some(home + "/text-fabric-data/"@ + nb)
    } else if kind == "url"@ {
        Some(if nb == "github"@ { "https://github.com"@ } else if nb == "gitlab"@ { "https://gitlab.com"@ } else { "https://"@ + nb })
    } else if kind == "urlnb"@ {
        Some("https://nbviewer.org/github/"@ + nb)
    } else if kind == "pages"@ {
        Some(if nb == "github"@ { "github.io"@ } else if nb == "gitlab"@ { "gitlab.io"@ } else { "pages."@ + after_first_dot(nb) })
    } else {
        None
    }
}

fn lower_exec(s: &str) -> (r: String)
    ensures
        r@ == lower_ascii(s@),
{
    let v = to_chars(s);
    let mut out: Vec<char> = Vec::new();
    let mut i: usize = 0;
    while i < v.len()
        invariant
            0 <= i <= v.len(),
            out@.len() == i,
            forall|j: int| 0 <= j < i ==> #[trigger] out@[j] == lower_char(v@[j]),
        decreases v.len() - i,
    {
        let c = v[i];
        let l = if 'A' <= c && c <= 'Z' {
            ((c as u8) + 32) as char
        } else {
            c
        };
        out.push(l);
        i += 1;
    }
    proof {
        assert(out@ =~= lower_ascii(s@));
    }
    from_chars(out.as_slice())
}

fn norm_backend_exec(b: Option<&str>) -> (r: String)
    ensures
        r@ == norm_backend(b),
{
    let raw = match b {
        Some(t) => lower_exec(t),
        None => lower_exec(""),
    };
    proof {
        assert(crate::escape::opt_text(b) == match b {
            Some(t) => t@,
            None => ""@,
        }) by {
            reveal_strlit("");
        }
    }
    if str_eq(raw.as_str(), "") || str_eq(raw.as_str(), "github") || str_eq(raw.as_str(), "github.com") {
        owned("github")
    } else if str_eq(raw.as_str(), "gitlab") || str_eq(raw.as_str(), "gitlab.com") {
        owned("gitlab")
    } else {
        raw
    }
}

fn after_first_dot_exec(s: &String) -> (r: String)
    ensures
        r@ == after_first_dot(s@),
{
    let v = to_chars(s.as_str());
    match crate::strs::find_char(v.as_slice(), '.') {
        Some(i) => {
            let n = v.len();
            assert(i < n);
            let t = crate::strs::sub_chars(v.as_slice(), i + 1, n);
            proof {
                let k = choose|k: int| crate::strs::first_at(s@, '.', k);
                assert(crate::strs::first_at(s@, '.', i as int));
                if k < i {
                    assert(v@[k] != '.');
                } else if i < k {
                    assert(s@[i as int] != '.');
                }
                assert(t@ =~= s@.skip(i + 1));
            }
            from_chars(t.as_slice())
        },
        None => {
            proof {
                assert(!exists|i: int| crate::strs::first_at(s@, '.', i));
            }
            copy_text(s)
        },
    }
}

fn copy_text(s: &String) -> (r: String)
    ensures
        r@ == s@,
{
    crate::strs::copy_string(s)
}

fn concat3(a: &str, b: &str, c: &str) -> (r: String)
    ensures
        r@ == a@ + b@ + c@,
{
    let mut r = owned(a);
    push_str(&mut r, b);
    push_str(&mut r, c);
    r
}

/// The representation of a code back-end of the given kind: its normal name,
/// technology, display name, host, representation in a corpus name, local
/// directories under `home`, URLs, or pages domain; nothing for an unknown kind.
#[allow(non_snake_case)]
pub fn backendRep(backend: Option<&str>, kind: &str, default: Option<&str>, home: &str) -> (r: Option<String>)
    ensures
        match r {
            Some(t) => backend_rep_spec(backend, kind@, default, home@) == Some(t@),
            None => backend_rep_spec(backend, kind@, default, home@) is None,
        },
{
    proof {
        reveal_strlit("");
        assert(""@ =~= Seq::<char>::empty());
    }
    let nb = norm_backend_exec(backend);
    let github = str_eq(nb.as_str(), "github");
    let gitlab = str_eq(nb.as_str(), "gitlab");
    if str_eq(kind, "norm") {
        Some(nb)
    } else if str_eq(kind, "tech") {
        Some(if github { owned("github") } else { owned("gitlab") })
    } else if str_eq(kind, "name") {
        Some(if github { owned("GitHub") } else if gitlab { owned("GitLab") } else { nb })
    } else if str_eq(kind, "machine") {
        Some(if github { owned("github.com") } else if gitlab { owned("gitlab.com") } else { nb })
    } else if str_eq(kind, "rep") || str_eq(kind, "spec") {
        let same = match default {
            Some(d) => {
                let nd = norm_backend_exec(Some(d));
                str_eq(nd.as_str(), nb.as_str())
            },
            None => false,
        };
        Some(if same { String::new() } else { concat3("<", nb.as_str(), ">") })
    } else if str_eq(kind, "clone") {
        Some(concat3(home, "/", nb.as_str()))
    } else if str_eq(kind, "cache") {
        Some(concat3(home, "/text-fabric-data/", nb.as_str()))
    } else if str_eq(kind, "url") {
        Some(if github {
            owned("https://github.com")
        } else if gitlab {
            owned("https://gitlab.com")
        } else {
            concat3("https://", nb.as_str(), "")
        })
    } else if str_eq(kind, "urlnb") {
        Some(concat3("https://nbviewer.org/github/", nb.as_str(), ""))
    } else if str_eq(kind, "pages") {
        Some(if github {
            owned("github.io")
        } else if gitlab {
            owned("gitlab.io")
        } else {
            let tail = after_first_dot_exec(&nb);
            concat3("pages.", tail.as_str(), "")
        })
    } else {
        None
    }
}

// ---------------------------------------------------------------------------
// Camel case
// ---------------------------------------------------------------------------

/// The upper-case form of a character (`char::to_uppercase`), which may be
/// more than one character.
pub uninterp spec fn upper_text(c: char) -> Seq<char>;

/// `char::to_uppercase` collected into a string.
#[verifier::external_body]
fn char_upper(c: char) -> (r: String)
    ensures
        r@ == upper_text(c),
{
    c.to_uppercase().collect::<String>()
}

/// A part after the first, with its first character in upper case.
pub open spec fn capitalized(p: Seq<char>) -> Seq<char> {
    if p.len() == 0 {
        seq![]
    } else {
        upper_text(p[0]) + p.skip(1)
    }
}

pub open spec fn camel_rest(parts: Seq<Seq<char>>) -> Seq<char>
    decreases parts.len(),
{
    if parts.len() == 0 {
        seq![]
    } else {
        camel_rest(parts.drop_last()) + capitalized(parts.last())
    }
}

/// The camel-case form of a snake-case name: the first part as it is, the
/// others capitalized, the underscores dropped.
pub open spec fn camel_spec(s: Seq<char>) -> Seq<char> {
    if s.len() == 0 {
        seq![]
    } else {
        let parts = split_spec(s, '_');
        parts[0] + camel_rest(parts.drop_first())
    }
}

/// The camel-case form of a name; nothing for no name.
pub fn camel(name: Option<&str>) -> (r: Option<String>)
    ensures
        match name {
            Some(s) => r is Some && r->0@ == camel_spec(s@),
            None => r is None,
        },
{
    let s = match name {
        Some(s) => s,
        None => {
            return None;
        },
    };
    let v = to_chars(s);
    if v.len() == 0 {
        return Some(String::new());
    }
    let parts = split_str(s, '_');
    proof {
        crate::strs::lemma_split_nonempty(s@, '_');
        assert(views(parts@)[0] == parts@[0]@);
    }
    let mut out = copy_text(&parts[0]);
    let ghost ps = views(parts@);
    let mut i: usize = 1;
    while i < parts.len()
        invariant
            1 <= i <= parts.len(),
            ps == views(parts@),
            ps.len() >= 1,
            out@ == ps[0] + camel_rest(ps.drop_first().take(i - 1)),
        decreases parts.len() - i,
    {
        let pv = to_chars(parts[i].as_str());
        let ghost before = out@;
        if pv.len() > 0 {
            let up = char_upper(pv[0]);
            push_str(&mut out, up.as_str());
            let tail = crate::strs::sub_chars(pv.as_slice(), 1, pv.len());
            crate::strs::push_chars(&mut out, tail.as_slice());
            proof {
                assert(tail@ =~= pv@.skip(1));
            }
        }
        proof {
            assert(ps.drop_first().take(i as int).drop_last() =~= ps.drop_first().take(i - 1));
            assert(ps.drop_first().take(i as int).last() == ps[i as int]);
            assert(ps[i as int] == parts@[i as int]@);
            assert(out@ =~= before + capitalized(ps[i as int]));
        }
        i += 1;
    }
    proof {
        assert(ps.drop_first().take(ps.len() - 1) =~= ps.drop_first());
    }
    Some(out)
}

#[allow(non_snake_case)]
pub fn flattenToSet(features: &[FlattenFeatureSpec]) -> (r: Vec<String>)
    ensures
        strictly_sorted_strs(views(r@)),
        forall|x: Seq<char>| views(r@).contains(x) <==> exists|i: int| 0 <= i < features@.len()
            && #[trigger] flatten_has(features@[i], x),
{
    flatten_to_set(features)
}

// ---------------------------------------------------------------------------
// Console messages
// ---------------------------------------------------------------------------

/// A console message: the parts joined with spaces, the home directory written as `~`,
/// one leading and one trailing newline dropped, and a newline added when asked.
pub open spec fn console_text(parts: Seq<Seq<char>>, newline: bool, home: Seq<char>) -> Seq<char> {
    let j = join_spec(parts, seq![' ']);
    let m = if j.len() == 0 {
        j
    } else {
        crate::paths::unexpand_spec(j, home)
    };
    let a = if m.len() > 0 && m[0] == '\n' {
        m.drop_first()
    } else {
        m
    };
    let b = if a.len() > 0 && a.last() == '\n' {
        a.drop_last()
    } else {
        a
    };
    if newline {
        b.push('\n')
    } else {
        b
    }
}

/// The text that goes to the console for `messages`, given the home directory.
pub fn console_message(messages: &[&str], newline: bool, home: &str) -> (r: String)
    ensures
        r@ == console_text(crate::corpus_info::str_views(messages@), newline, home@),
{
    let ghost parts = crate::corpus_info::str_views(messages@);
    let mut joined = String::new();
    let mut i: usize = 0;
    while i < messages.len()
        invariant
            i <= messages@.len(),
            parts == crate::corpus_info::str_views(messages@),
            joined@ == join_spec(parts.take(i as int), seq![' ']),
        decreases messages.len() - i,
    {
        proof {
            assert(parts.take(i + 1).drop_last() =~= parts.take(i as int));
            assert(parts.take(i + 1).last() == messages@[i as int]@);
            if i == 0 {
                assert(parts.take(1) =~= seq![messages@[0]@]);
            }
        }
        if i > 0 {
            push_str(&mut joined, " ");
            proof {
                reveal_strlit(" ");
            }
        }
        push_str(&mut joined, messages[i]);
        i += 1;
    }
    proof {
        assert(parts.take(messages@.len() as int) =~= parts);
    }
    let m = if to_chars(joined.as_str()).len() == 0 {
        joined
    } else {
        crate::paths::unexpanduser(joined.as_str(), home)
    };
    let v = to_chars(m.as_str());
    let start: usize = if v.len() > 0 && v[0] == '\n' {
        1
    } else {
        0
    };
    let a = crate::strs::sub_chars(v.as_slice(), start, v.len());
    proof {
        if start == 1 {
            assert(a@ =~= m@.drop_first());
        } else {
            assert(a@ =~= m@);
        }
    }
    let end: usize = if a.len() > 0 && a[a.len() - 1] == '\n' {
        a.len() - 1
    } else {
        a.len()
    };
    let b = crate::strs::sub_chars(a.as_slice(), 0, end);
    proof {
        if end < a.len() {
            assert(b@ =~= a@.drop_last());
        } else {
            assert(b@ =~= a@);
        }
    }
    let mut r = from_chars(b.as_slice());
    if newline {
        crate::strs::push_char(&mut r, '\n');
    }
    r
}

// ---------------------------------------------------------------------------
// Item lists
// ---------------------------------------------------------------------------

/// The pieces of `s` between the occurrences of the non-empty `pat`, found left to
/// right without overlap, with `cur` the piece being read and `acc` the pieces before.
pub open spec fn split_pat_from(s: Seq<char>, pat: Seq<char>, cur: Seq<char>, acc: Seq<Seq<char>>) -> Seq<Seq<char>>
    decreases s.len(),
{
    if s.len() == 0 || pat.len() == 0 {
        acc.push(cur + s)
    } else if starts_with_spec(s, pat) {
        split_pat_from(s.skip(pat.len() as int), pat, seq![], acc.push(cur))
    } else {
        split_pat_from(s.skip(1), pat, cur.push(s[0]), acc)
    }
}

/// `str::split` on a string pattern: for an empty pattern an empty piece, each
/// character, and an empty piece.
pub open spec fn split_pat(s: Seq<char>, pat: Seq<char>) -> Seq<Seq<char>> {
    if pat.len() == 0 {
        seq![seq![]] + s.map_values(|c: char| seq![c]) + seq![seq![]]
    } else {
        split_pat_from(s, pat, seq![], seq![])
    }
}

/// The non-empty runs of non-whitespace characters of `s`, with `cur` the run being
/// read and `acc` the runs before.
pub open spec fn ws_words_from(s: Seq<char>, cur: Seq<char>, acc: Seq<Seq<char>>) -> Seq<Seq<char>>
    decreases s.len(),
{
    if s.len() == 0 {
        if cur.len() > 0 { acc.push(cur) } else { acc }
    } else if is_ws(s[0]) {
        ws_words_from(s.skip(1), seq![], if cur.len() > 0 { acc.push(cur) } else { acc })
    } else {
        ws_words_from(s.skip(1), cur.push(s[0]), acc)
    }
}

/// `str::split_whitespace`.
pub open spec fn ws_words(s: Seq<char>) -> Seq<Seq<char>> {
    ws_words_from(s, seq![], seq![])
}

/// The items of a value: none for no value or an empty one; else the pieces of the
/// trimmed value between separators `sep`, or its whitespace-separated words.
pub open spec fn itemize_spec(value: Option<Seq<char>>, sep: Option<Seq<char>>) -> Seq<Seq<char>> {
    match value {
        None => seq![],
        Some(v) => if v.len() == 0 {
            seq![]
        } else {
            match sep {
                Some(p) => split_pat(trim_spec(v), p),
                None => ws_words(v),
            }
        },
    }
}

/// `str::split` on a string pattern.
pub fn split_on(s: &str, pat: &str) -> (r: Vec<String>)
    ensures
        views(r@) == split_pat(s@, pat@),
{
    let v = to_chars(s);
    let p = to_chars(pat);
    let mut acc: Vec<String> = Vec::new();
    if p.len() == 0 {
        acc.push(String::new());
        let mut i: usize = 0;
        while i < v.len()
            invariant
                i <= v@.len(),
                views(acc@) == seq![Seq::<char>::empty()] + v@.take(i as int).map_values(|c: char| seq![c]),
            decreases v.len() - i,
        {
            let ghost a0 = views(acc@);
            let mut one: Vec<char> = Vec::new();
            one.push(v[i]);
            proof {
                assert(one@ =~= seq![v@[i as int]]);
            }
            acc.push(from_chars(one.as_slice()));
            proof {
                assert(views(acc@) =~= a0.push(seq![v@[i as int]]));
                assert(v@.take(i + 1).map_values(|c: char| seq![c]) =~= v@.take(i as int).map_values(|c: char| seq![c]).push(seq![v@[i as int]]));
                assert(seq![Seq::<char>::empty()] + v@.take(i + 1).map_values(|c: char| seq![c]) =~= a0.push(seq![v@[i as int]]));
            }
            i += 1;
        }
        let ghost a1 = views(acc@);
        acc.push(String::new());
        proof {
            assert(v@.take(v@.len() as int) =~= v@);
            assert(views(acc@) =~= a1.push(Seq::<char>::empty()));
            assert(views(acc@) =~= seq![Seq::<char>::empty()] + v@.map_values(|c: char| seq![c]) + seq![Seq::<char>::empty()]);
        }
        return acc;
    }
    let mut cur: Vec<char> = Vec::new();
    let mut i: usize = 0;
    proof {
        assert(v@.skip(0) =~= v@);
        assert(views(acc@) =~= Seq::<Seq<char>>::empty());
    }
    while i < v.len()
        invariant
            i <= v@.len(),
            p@.len() > 0,
            split_pat(s@, pat@) == split_pat_from(v@.skip(i as int), p@, cur@, views(acc@)),
            v@ == s@,
            p@ == pat@,
        decreases v.len() - i,
    {
        let ghost rest = v@.skip(i as int);
        let ghost acc0 = views(acc@);
        let ghost cur0 = cur@;
        if crate::text_formats::matches_at(v.as_slice(), i, p.as_slice()) {
            acc.push(from_chars(cur.as_slice()));
            cur = Vec::new();
            proof {
                assert(views(acc@) =~= acc0.push(cur0));
                assert(cur@ =~= Seq::<char>::empty());
                assert(rest.skip(p@.len() as int) =~= v@.skip(i + p@.len()));
            }
            i += p.len();
        } else {
            cur.push(v[i]);
            proof {
                assert(rest[0] == v@[i as int]);
                assert(rest.skip(1) =~= v@.skip(i + 1));
            }
            i += 1;
        }
    }
    let ghost acc0 = views(acc@);
    acc.push(from_chars(cur.as_slice()));
    proof {
        assert(v@.skip(i as int) =~= Seq::<char>::empty());
        assert(cur@ + Seq::<char>::empty() =~= cur@);
        assert(views(acc@) =~= acc0.push(cur@));
    }
    acc
}

/// `str::split_whitespace`.
pub fn split_ws(s: &str) -> (r: Vec<String>)
    ensures
        views(r@) == ws_words(s@),
{
    let v = to_chars(s);
    let mut acc: Vec<String> = Vec::new();
    let mut cur: Vec<char> = Vec::new();
    let mut i: usize = 0;
    proof {
        assert(v@.skip(0) =~= v@);
        assert(views(acc@) =~= Seq::<Seq<char>>::empty());
    }
    while i < v.len()
        invariant
            i <= v@.len(),
            v@ == s@,
            ws_words(s@) == ws_words_from(v@.skip(i as int), cur@, views(acc@)),
        decreases v.len() - i,
    {
        let c = v[i];
        let ghost rest = v@.skip(i as int);
        let ghost cur0 = cur@;
        let ghost acc0 = views(acc@);
        proof {
            assert(rest[0] == c);
            assert(rest.skip(1) =~= v@.skip(i + 1));
        }
        if is_whitespace(c) {
            if cur.len() > 0 {
                acc.push(from_chars(cur.as_slice()));
                proof {
                    assert(views(acc@) =~= acc0.push(cur0));
                }
            }
            cur = Vec::new();
            proof {
                assert(cur@ =~= Seq::<char>::empty());
            }
        } else {
            cur.push(c);
        }
        i += 1;
    }
    if cur.len() > 0 {
        let ghost acc0 = views(acc@);
        acc.push(from_chars(cur.as_slice()));
        proof {
            assert(views(acc@) =~= acc0.push(cur@));
        }
    }
    proof {
        assert(v@.skip(i as int) =~= Seq::<char>::empty());
    }
    acc
}

/// The items of an optional value: split at `sep` after trimming, or into words.
pub fn itemize(value: Option<&str>, sep: Option<&str>) -> (r: Vec<String>)
    ensures
        views(r@) == itemize_spec(
            match value {
                Some(v) => Some(v@),
                None => None,
            },
            match sep {
                Some(p) => Some(p@),
                None => None,
            },
        ),
{
    let v = match value {
        Some(v) => v,
        None => return Vec::new(),
    };
    let cs = to_chars(v);
    if cs.len() == 0 {
        let r: Vec<String> = Vec::new();
        proof {
            assert(views(r@) =~= Seq::<Seq<char>>::empty());
        }
        return r;
    }
    match sep {
        Some(p) => {
            let t = trim_str(v);
            split_on(t.as_str(), p)
        },
        None => split_ws(v),
    }
}

// ---------------------------------------------------------------------------
// Feature metadata for display
// ---------------------------------------------------------------------------

/// The character sequences of a list of string pairs.
pub open spec fn pair_views(m: Seq<(String, String)>) -> Seq<(Seq<char>, Seq<char>)> {
    m.map_values(|p: (String, String)| (p.0@, p.1@))
}

/// The keys stand in strictly ascending order (a sorted map).
pub open spec fn keys_ascending(m: Seq<(Seq<char>, Seq<char>)>) -> bool {
    forall|i: int, j: int| 0 <= i < j < m.len() ==> str_lt(m[i].0, m[j].0)
}

/// The value of `k` in `m`.
pub open spec fn pair_get(m: Seq<(Seq<char>, Seq<char>)>, k: Seq<char>) -> Option<Seq<char>> {
    if exists|i: int| 0 <= i < m.len() && (#[trigger] m[i]).0 == k {
        Some(m[choose|i: int| 0 <= i < m.len() && (#[trigger] m[i]).0 == k].1)
    } else {
        None
    }
}

/// Some entry of `m` has key `k`.
pub open spec fn has_key(m: Seq<(Seq<char>, Seq<char>)>, k: Seq<char>) -> bool {
    exists|i: int| 0 <= i < m.len() && (#[trigger] m[i]).0 == k
}

/// The example of `m` in brackets after a space, or nothing for a missing or empty one.
pub open spec fn example_suffix(m: Seq<(Seq<char>, Seq<char>)>) -> Seq<char> {
    match pair_get(m, "eg"@) {
        Some(e) => if e.len() > 0 {
            " ("@ + e + ")"@
        } else {
            seq![]
        },
        None => seq![],
    }
}

/// The value of `k` in the display form of metadata `m`: `desc` becomes `description`
/// with the example appended (an explicit `description` wins), and `eg` goes where
/// there is a `desc`.
pub open spec fn formatted_value(m: Seq<(Seq<char>, Seq<char>)>, k: Seq<char>) -> Option<Seq<char>> {
    if k == "desc"@ {
        None
    } else if k == "eg"@ && pair_get(m, "desc"@) is Some {
        None
    } else if k == "description"@ {
        match pair_get(m, "description"@) {
            Some(v) => Some(v),
            None => match pair_get(m, "desc"@) {
                Some(d) => Some(d + example_suffix(m)),
                None => None,
            },
        }
    } else {
        pair_get(m, k)
    }
}

/// `out` is the display form of `m`: ascending keys, each with its formatted value.
pub open spec fn formatted_ok(m: Seq<(Seq<char>, Seq<char>)>, out: Seq<(Seq<char>, Seq<char>)>) -> bool {
    &&& keys_ascending(out)
    &&& forall|k: Seq<char>| #[trigger] has_key(out, k) <==> formatted_value(m, k) is Some
    &&& forall|i: int| 0 <= i < out.len() ==> formatted_value(m, (#[trigger] out[i]).0) == Some(out[i].1)
}

/// The value of `k` in `m`.
fn pair_lookup<'a>(m: &'a Vec<(String, String)>, k: &str) -> (r: Option<&'a String>)
    requires
        keys_ascending(pair_views(m@)),
    ensures
        match r {
            Some(v) => pair_get(pair_views(m@), k@) == Some(v@),
            None => pair_get(pair_views(m@), k@) is None,
        },
{
    let ghost mv = pair_views(m@);
    let mut i: usize = 0;
    while i < m.len()
        invariant
            i <= m@.len(),
            mv == pair_views(m@),
            keys_ascending(mv),
            forall|j: int| 0 <= j < i ==> (#[trigger] mv[j]).0 != k@,
        decreases m.len() - i,
    {
        if string_eq(&m[i].0, k) {
            proof {
                assert(mv[i as int].0 == k@);
                let c = choose|c: int| 0 <= c < mv.len() && (#[trigger] mv[c]).0 == k@;
                if c != i {
                    crate::strs::lemma_str_lt_irrefl(k@);
                    if c > i {
                        assert(str_lt(mv[i as int].0, mv[c].0));
                    }
                }
            }
            return Some(&m[i].1);
        }
        i += 1;
    }
    None
}

/// Appends copies of `src[from..to]` to `out`.
fn append_pairs(out: &mut Vec<(String, String)>, src: &Vec<(String, String)>, from: usize, to: usize)
    requires
        from <= to <= src@.len(),
    ensures
        pair_views(final(out)@) == pair_views(old(out)@) + pair_views(src@).subrange(from as int, to as int),
{
    let ghost o0 = pair_views(out@);
    let mut a: usize = from;
    while a < to
        invariant
            from <= a <= to <= src@.len(),
            pair_views(out@) == o0 + pair_views(src@).subrange(from as int, a as int),
        decreases to - a,
    {
        let ghost ov = pair_views(out@);
        out.push((copy_string(&src[a].0), copy_string(&src[a].1)));
        proof {
            assert(pair_views(out@) =~= ov.push(pair_views(src@)[a as int]));
            assert(pair_views(src@).subrange(from as int, a + 1) =~= pair_views(src@).subrange(from as int, a as int).push(
                pair_views(src@)[a as int],
            ));
        }
        a += 1;
    }
}

/// The display form of one feature's metadata.
fn format_one(m: &Vec<(String, String)>) -> (r: Vec<(String, String)>)
    requires
        keys_ascending(pair_views(m@)),
    ensures
        formatted_ok(pair_views(m@), pair_views(r@)),
{
    let ghost mv = pair_views(m@);
    let desc = pair_lookup(m, "desc");
    let eg = pair_lookup(m, "eg");
    let explicit = pair_lookup(m, "description");
    let has_desc = desc.is_some();
    let described: Option<String> = match explicit {
        Some(v) => Some(copy_string(v)),
        None => match desc {
            Some(d) => {
                let mut s = copy_string(d);
                match eg {
                    Some(e) => {
                        let ev = to_chars(e.as_str());
                        if ev.len() > 0 {
                            push_str(&mut s, " (");
                            push_str(&mut s, e.as_str());
                            push_str(&mut s, ")");
                            proof {
                                assert(s@ =~= d@ + (" ("@ + e@ + ")"@));
                            }
                        } else {
                            proof {
                                assert(s@ =~= d@ + Seq::<char>::empty());
                            }
                        }
                    },
                    None => {
                        proof {
                            assert(s@ =~= d@ + Seq::<char>::empty());
                        }
                    },
                }
                proof {
                    assert(s@ == d@ + example_suffix(mv));
                }
                Some(s)
            },
            None => None,
        },
    };
    proof {
        reveal_strlit("description");
        reveal_strlit("desc");
        reveal_strlit("eg");
        assert("description"@.len() == 11 && "desc"@.len() == 4 && "eg"@.len() == 2);
        if described is Some {
            assert(formatted_value(mv, "description"@) == Some(described->Some_0@));
        } else {
            assert(formatted_value(mv, "description"@) is None);
        }
    }
    let mut kept: Vec<(String, String)> = Vec::new();
    let mut i: usize = 0;
    while i < m.len()
        invariant
            i <= m@.len(),
            mv == pair_views(m@),
            keys_ascending(mv),
            has_desc == (pair_get(mv, "desc"@) is Some),
            keys_ascending(pair_views(kept@)),
            forall|a: int|
                0 <= a < kept@.len() ==> exists|j: int| 0 <= j < i && (#[trigger] pair_views(kept@)[a]).0 == mv[j].0,
            forall|a: int|
                0 <= a < kept@.len() ==> formatted_value(mv, (#[trigger] pair_views(kept@)[a]).0) == Some(pair_views(kept@)[a].1)
                    && pair_views(kept@)[a].0 != "description"@,
            forall|j: int|
                0 <= j < i && formatted_value(mv, (#[trigger] mv[j]).0) is Some && mv[j].0 != "description"@ ==> has_key(
                    pair_views(kept@),
                    mv[j].0,
                ),
        decreases m.len() - i,
    {
        let k = m[i].0.as_str();
        let skip = str_eq(k, "desc") || (has_desc && str_eq(k, "eg")) || str_eq(k, "description");
        proof {
            assert(mv[i as int].0 == k@);
            assert(pair_get(mv, k@) == Some(mv[i as int].1)) by {
                let c = choose|c: int| 0 <= c < mv.len() && (#[trigger] mv[c]).0 == k@;
                if c != i {
                    crate::strs::lemma_str_lt_irrefl(k@);
                    if c < i {
                        assert(str_lt(mv[c].0, mv[i as int].0));
                    } else {
                        assert(str_lt(mv[i as int].0, mv[c].0));
                    }
                }
            }
        }
        let ghost k0 = pair_views(kept@);
        if !skip {
            proof {
                assert forall|a: int| 0 <= a < k0.len() implies str_lt(k0[a].0, k@) by {
                    let j = choose|j: int| 0 <= j < i && k0[a].0 == mv[j].0;
                }
            }
            kept.push((copy_string(&m[i].0), copy_string(&m[i].1)));
            proof {
                let kv = pair_views(kept@);
                assert(kv =~= k0.push((k@, mv[i as int].1)));
                assert forall|a: int| 0 <= a < kept@.len() implies exists|j: int|
                    0 <= j < i + 1 && (#[trigger] pair_views(kept@)[a]).0 == mv[j].0 by {
                    if a < k0.len() {
                        let j = choose|j: int| 0 <= j < i && k0[a].0 == mv[j].0;
                        assert(kv[a] == k0[a]);
                    } else {
                        assert(kv[a].0 == mv[i as int].0);
                    }
                }
                assert forall|a: int| 0 <= a < kept@.len() implies formatted_value(mv, (#[trigger] pair_views(kept@)[a]).0)
                    == Some(pair_views(kept@)[a].1) && pair_views(kept@)[a].0 != "description"@ by {
                    if a < k0.len() {
                        assert(kv[a] == k0[a]);
                    }
                }
                assert forall|j: int|
                    0 <= j < i + 1 && formatted_value(mv, (#[trigger] mv[j]).0) is Some && mv[j].0 != "description"@ implies has_key(
                    kv,
                    mv[j].0,
                ) by {
                    if j < i {
                        let a = choose|a: int| 0 <= a < k0.len() && (#[trigger] k0[a]).0 == mv[j].0;
                        assert(kv[a] == k0[a]);
                    } else {
                        assert(kv[k0.len() as int].0 == mv[j].0);
                    }
                }
            }
        } else {
            proof {
                assert(formatted_value(mv, k@) is None || k@ == "description"@);
                assert forall|j: int|
                    0 <= j < i + 1 && formatted_value(mv, (#[trigger] mv[j]).0) is Some && mv[j].0 != "description"@ implies has_key(
                    k0,
                    mv[j].0,
                ) by {
                    if j == i {
                        assert(mv[j].0 == k@);
                    }
                }
            }
        }
        i += 1;
    }
    let ghost kv = pair_views(kept@);
    proof {
        assert forall|k: Seq<char>| formatted_value(mv, k) is Some && k != "description"@ implies #[trigger] has_key(kv, k) by {
            assert(pair_get(mv, k) is Some);
            let j = choose|j: int| 0 <= j < mv.len() && (#[trigger] mv[j]).0 == k;
        }
        assert forall|k: Seq<char>| #[trigger] has_key(kv, k) implies formatted_value(mv, k) is Some by {
            let a = choose|a: int| 0 <= a < kv.len() && (#[trigger] kv[a]).0 == k;
        }
    }
    match described {
        None => kept,
        Some(s) => {
            let mut p: usize = 0;
            while p < kept.len() && !str_lt_exec("description", kept[p].0.as_str())
                invariant
                    p <= kept@.len(),
                    kv == pair_views(kept@),
                    forall|a: int| 0 <= a < kv.len() ==> (#[trigger] kv[a]).0 != "description"@,
                    forall|a: int| 0 <= a < p ==> str_lt((#[trigger] kv[a]).0, "description"@),
                decreases kept.len() - p,
            {
                proof {
                    assert(kv[p as int].0 == kept@[p as int].0@);
                    crate::strs::lemma_str_lt_total(kv[p as int].0, "description"@);
                }
                p += 1;
            }
            proof {
                if p < kv.len() {
                    assert(kv[p as int].0 == kept@[p as int].0@);
                    assert forall|a: int| p <= a < kv.len() implies str_lt("description"@, (#[trigger] kv[a]).0) by {
                        if a > p {
                            crate::strs::lemma_str_lt_trans("description"@, kv[p as int].0, kv[a].0);
                        }
                    }
                }
            }
            let mut out: Vec<(String, String)> = Vec::new();
            append_pairs(&mut out, &kept, 0, p);
            let ghost o1 = pair_views(out@);
            out.push((owned("description"), s));
            let ghost o2 = pair_views(out@);
            proof {
                assert(o2 =~= o1.push(("description"@, s@)));
            }
            append_pairs(&mut out, &kept, p, kept.len());
            proof {
                let ov = pair_views(out@);
                let d = ("description"@, s@);
                assert(ov =~= kv.subrange(0, p as int) + seq![d] + kv.subrange(p as int, kv.len() as int));
                assert forall|x: int| 0 <= x < ov.len() implies (x < p ==> ov[x] == kv[x]) && (x == p ==> ov[x] == d)
                    && (x > p ==> ov[x] == kv[x - 1]) by {}
                assert forall|x: int, y: int| 0 <= x < y < ov.len() implies str_lt(ov[x].0, ov[y].0) by {
                    if y < p {
                    } else if y == p {
                    } else if x < p {
                        crate::strs::lemma_str_lt_trans(ov[x].0, "description"@, ov[y].0);
                    } else if x == p {
                    } else {
                    }
                }
                assert forall|k: Seq<char>| #[trigger] has_key(ov, k) <==> formatted_value(mv, k) is Some by {
                    if has_key(ov, k) {
                        let x = choose|x: int| 0 <= x < ov.len() && (#[trigger] ov[x]).0 == k;
                        if x < p {
                            assert(has_key(kv, k));
                        } else if x > p {
                            assert(kv[x - 1].0 == k);
                            assert(has_key(kv, k));
                        }
                    }
                    if formatted_value(mv, k) is Some {
                        if k == "description"@ {
                            assert(ov[p as int].0 == k);
                        } else {
                            assert(has_key(kv, k));
                            let a = choose|a: int| 0 <= a < kv.len() && (#[trigger] kv[a]).0 == k;
                            if a < p {
                                assert(ov[a].0 == k);
                            } else {
                                assert(ov[a + 1].0 == k);
                            }
                        }
                    }
                }
                assert forall|x: int| 0 <= x < ov.len() implies formatted_value(mv, (#[trigger] ov[x]).0) == Some(ov[x].1) by {
                    if x < p {
                        assert(ov[x] == kv[x]);
                    } else if x > p {
                        assert(ov[x] == kv[x - 1]);
                    }
                }
            }
            out
        },
    }
}

/// The metadata of features in display form: per feature, `desc` becomes
/// `description` with its example, as [`formatted_value`] says.
pub fn format_meta(feature_meta: &Vec<(String, Vec<(String, String)>)>) -> (r: Vec<(String, Vec<(String, String)>)>)
    requires
        forall|i: int| 0 <= i < feature_meta@.len() ==> keys_ascending(pair_views(#[trigger] feature_meta@[i].1@)),
    ensures
        r@.len() == feature_meta@.len(),
        forall|i: int|
            0 <= i < r@.len() ==> (#[trigger] r@[i]).0@ == feature_meta@[i].0@ && formatted_ok(
                pair_views(feature_meta@[i].1@),
                pair_views(r@[i].1@),
            ),
{
    let mut r: Vec<(String, Vec<(String, String)>)> = Vec::new();
    let mut i: usize = 0;
    while i < feature_meta.len()
        invariant
            i <= feature_meta@.len(),
            r@.len() == i,
            forall|j: int| 0 <= j < feature_meta@.len() ==> keys_ascending(pair_views(#[trigger] feature_meta@[j].1@)),
            forall|j: int|
                0 <= j < i ==> (#[trigger] r@[j]).0@ == feature_meta@[j].0@ && formatted_ok(
                    pair_views(feature_meta@[j].1@),
                    pair_views(r@[j].1@),
                ),
        decreases feature_meta.len() - i,
    {
        let formatted = format_one(&feature_meta[i].1);
        r.push((copy_string(&feature_meta[i].0), formatted));
        i += 1;
    }
    r
}

/// The metadata of features in display form (camel-case name).
#[allow(non_snake_case)]
pub fn formatMeta(feature_meta: &Vec<(String, Vec<(String, String)>)>) -> (r: Vec<(String, Vec<(String, String)>)>)
    requires
        forall|i: int| 0 <= i < feature_meta@.len() ==> keys_ascending(pair_views(#[trigger] feature_meta@[i].1@)),
    ensures
        r@.len() == feature_meta@.len(),
        forall|i: int|
            0 <= i < r@.len() ==> (#[trigger] r@[i]).0@ == feature_meta@[i].0@ && formatted_ok(
                pair_views(feature_meta@[i].1@),
                pair_views(r@[i].1@),
            ),
{
    format_meta(feature_meta)
}

} // verus!
