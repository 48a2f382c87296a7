//! A fabric: the locations and modules where the feature files of a corpus live, and
//! how a feature request is written (one string of names, or a list of them).

use vstd::prelude::*;
use crate::cli::keys_of;
use crate::explore::{entry_of, FeatureInventory};
use crate::sorting::{sorted_unique_strings, strictly_sorted_strs};
use crate::strs::{
    copy_string, from_chars, is_whitespace, is_ws, join_spec, owned, push_str, to_chars, views,
};

verus! {

broadcast use vstd::string::group_string_axioms;

/// The version of the library.
pub const VERSION: &'static str = "0.6.0";

/// The greeting of the library, with its version.
pub const BANNER: &'static str = "This is Context-Fabric 0.6.0";

/// Where a corpus lives: its main path, all locations, and the modules under each.
#[derive(Debug, Clone, PartialEq, Eq)]
pub struct Fabric {
    pub path: String,
    pub locations: Vec<String>,
    pub modules: Vec<String>,
    pub banner: String,
    pub version: String,
    pub good: bool,
    pub features_requested: Vec<String>,
}

/// `Path::join`: an absolute second part replaces the first; otherwise the parts are
/// joined with one `/` (none when the first is empty or already ends with one).
pub open spec fn path_join(a: Seq<char>, b: Seq<char>) -> Seq<char> {
    if b.len() > 0 && b[0] == '/' {
        b
    } else if a.len() == 0 || a.last() == '/' {
        a + b
    } else {
        a + seq!['/'] + b
    }
}

/// `Path::join` on two paths.
pub fn join_path(a: &str, b: &str) -> (r: String)
    ensures
        r@ == path_join(a@, b@),
{
    let av = to_chars(a);
    let bv = to_chars(b);
    if bv.len() > 0 && bv[0] == '/' {
        return owned(b);
    }
    let mut r = owned(a);
    if !(av.len() == 0 || av[av.len() - 1] == '/') {
        crate::strs::push_char(&mut r, '/');
    }
    push_str(&mut r, b);
    proof {
        assert(r@ =~= path_join(a@, b@));
    }
    r
}

/// The paths where feature files are looked for: each location with each module under
/// it (the empty module being the location itself), locations first.
pub open spec fn module_candidates(locations: Seq<Seq<char>>, modules: Seq<Seq<char>>) -> Seq<Seq<char>>
    decreases locations.len(),
{
    if locations.len() == 0 {
        seq![]
    } else {
        module_candidates(locations.drop_last(), modules) + modules.map_values(
            |m: Seq<char>| if m.len() == 0 {
                locations.last()
            } else {
                path_join(locations.last(), m)
            },
        )
    }
}

/// The entries of an inventory's path table with more than one path: those whose earlier
/// paths are overridden by the last.
pub open spec fn overridden(paths: Seq<(String, Vec<String>)>, x: Seq<char>) -> bool {
    entry_of(paths, x) matches Some(p) && p@.len() > 1
}

impl Fabric {
    /// A fabric at one path, with the single, empty module.
    pub fn new(path: &str) -> (r: Self)
        ensures
            r.path@ == path@,
            views(r.locations@) == seq![path@],
            views(r.modules@) == seq![Seq::<char>::empty()],
            r.banner@ == BANNER@,
            r.version@ == VERSION@,
            r.good,
            r.features_requested@.len() == 0,
    {
        let mut locations: Vec<String> = Vec::new();
        locations.push(owned(path));
        let mut modules: Vec<String> = Vec::new();
        modules.push(String::new());
        proof {
            assert(views(locations@) =~= seq![path@]);
            assert(views(modules@) =~= seq![Seq::<char>::empty()]);
        }
        Fabric {
            path: owned(path),
            locations,
            modules,
            banner: owned(BANNER),
            version: owned(VERSION),
            good: true,
            features_requested: Vec::new(),
        }
    }

    /// A fabric over several locations (one empty location when none is given); its
    /// path is the first.
    pub fn from_locations(locations: &[String]) -> (r: Self)
        ensures
            locations@.len() > 0 ==> views(r.locations@) == views(locations@) && r.path@ == locations@[0]@,
            locations@.len() == 0 ==> views(r.locations@) == seq![Seq::<char>::empty()] && r.path@ == Seq::<char>::empty(),
            views(r.modules@) == seq![Seq::<char>::empty()],
            r.banner@ == BANNER@,
            r.version@ == VERSION@,
            r.good,
            r.features_requested@.len() == 0,
    {
        let mut locs = copy_all(locations);
        if locs.len() == 0 {
            locs.push(String::new());
            proof {
                assert(views(locs@) =~= seq![Seq::<char>::empty()]);
            }
        }
        proof {
            assert(views(locs@)[0] == locs@[0]@);
        }
        let path = copy_string(&locs[0]);
        let mut modules: Vec<String> = Vec::new();
        modules.push(String::new());
        proof {
            assert(views(modules@) =~= seq![Seq::<char>::empty()]);
        }
        Fabric {
            path,
            locations: locs,
            modules,
            banner: owned(BANNER),
            version: owned(VERSION),
            good: true,
            features_requested: Vec::new(),
        }
    }

    /// A fabric at one path with the given modules (the empty module when none is given).
    pub fn with_modules(path: &str, modules: &[String]) -> (r: Self)
        ensures
            r.path@ == path@,
            views(r.locations@) == seq![path@],
            modules@.len() > 0 ==> views(r.modules@) == views(modules@),
            modules@.len() == 0 ==> views(r.modules@) == seq![Seq::<char>::empty()],
            r.banner@ == BANNER@,
            r.version@ == VERSION@,
            r.good,
            r.features_requested@.len() == 0,
    {
        let mut f = Self::new(path);
        let mut ms = copy_all(modules);
        if ms.len() == 0 {
            ms.push(String::new());
            proof {
                assert(views(ms@) =~= seq![Seq::<char>::empty()]);
            }
        }
        f.modules = ms;
        f
    }

    /// The main path.
    pub fn path(&self) -> (r: &str)
        ensures
            r@ == self.path@,
    {
        self.path.as_str()
    }

    /// The locations.
    pub fn locations(&self) -> (r: &[String])
        ensures
            r@ == self.locations@,
    {
        self.locations.as_slice()
    }

    /// The modules.
    pub fn modules(&self) -> (r: &[String])
        ensures
            r@ == self.modules@,
    {
        self.modules.as_slice()
    }

    /// The greeting.
    pub fn banner(&self) -> (r: &str)
        ensures
            r@ == self.banner@,
    {
        self.banner.as_str()
    }

    /// The version.
    pub fn version(&self) -> (r: &str)
        ensures
            r@ == self.version@,
    {
        self.version.as_str()
    }

    /// Whether the fabric is usable.
    pub fn good(&self) -> (r: bool)
        ensures
            r == self.good,
    {
        self.good
    }

    /// The features asked for so far.
    pub fn features_requested(&self) -> (r: &[String])
        ensures
            r@ == self.features_requested@,
    {
        self.features_requested.as_slice()
    }

    /// The features asked for so far (camel-case name).
    #[allow(non_snake_case)]
    pub fn featuresRequested(&self) -> (r: &[String])
        ensures
            r@ == self.features_requested@,
    {
        self.features_requested()
    }

    /// The locations, one per line.
    pub fn location_rep(&self) -> (r: String)
        ensures
            r@ == join_spec(views(self.locations@), seq!['\n']),
    {
        let r = crate::strs::join_strings(self.locations.as_slice(), "\n");
        proof {
            reveal_strlit("\n");
            assert("\n"@ =~= seq!['\n']);
        }
        r
    }

    /// The locations, one per line (camel-case name).
    #[allow(non_snake_case)]
    pub fn locationRep(&self) -> (r: String)
        ensures
            r@ == join_spec(views(self.locations@), seq!['\n']),
    {
        self.location_rep()
    }

    /// Every location joined with every module, locations first; whether each exists is
    /// for the caller to see.
    pub fn module_path_candidates(&self) -> (r: Vec<String>)
        ensures
            views(r@) == module_candidates(views(self.locations@), views(self.modules@)),
    {
        let mut r: Vec<String> = Vec::new();
        let mut i: usize = 0;
        while i < self.locations.len()
            invariant
                i <= self.locations@.len(),
                views(r@) == module_candidates(views(self.locations@).take(i as int), views(self.modules@)),
            decreases self.locations.len() - i,
        {
            let loc = self.locations[i].as_str();
            let ghost ms = views(self.modules@);
            let ghost base = views(r@);
            let ghost f = |m: Seq<char>| if m.len() == 0 { loc@ } else { path_join(loc@, m) };
            let mut j: usize = 0;
            while j < self.modules.len()
                invariant
                    j <= self.modules@.len(),
                    ms == views(self.modules@),
                    f == (|m: Seq<char>| if m.len() == 0 { loc@ } else { path_join(loc@, m) }),
                    views(r@) == base + ms.take(j as int).map_values(f),
                decreases self.modules.len() - j,
            {
                let m = self.modules[j].as_str();
                let empty = to_chars(m).len() == 0;
                let p = if empty {
                    owned(loc)
                } else {
                    join_path(loc, m)
                };
                proof {
                    assert(empty == (m@.len() == 0));
                    assert(f(m@) == if m@.len() == 0 { loc@ } else { path_join(loc@, m@) });
                    assert(p@ == f(m@));
                }
                let ghost r0 = views(r@);
                r.push(p);
                proof {
                    assert(ms[j as int] == m@);
                    assert(views(r@) =~= r0.push(f(m@)));
                    assert(ms.take(j + 1).map_values(f) =~= ms.take(j as int).map_values(f).push(f(m@)));
                }
                j += 1;
            }
            proof {
                assert(ms.take(ms.len() as int) =~= ms);
                let ls = views(self.locations@).take(i + 1);
                assert(ls.drop_last() =~= views(self.locations@).take(i as int));
                assert(ls.last() == loc@);
            }
            i += 1;
        }
        proof {
            assert(views(self.locations@).take(self.locations@.len() as int) =~= views(self.locations@));
        }
        r
    }

    /// The features whose files occur more than once in an inventory, by name: all but
    /// the last of their paths (the last one is the one that counts).
    pub fn ignored_feature_paths(&self, inventory: &FeatureInventory) -> (r: Vec<(String, Vec<String>)>)
        ensures
            strictly_sorted_strs(keys_of(r@)),
            forall|x: Seq<char>| #[trigger] keys_of(r@).contains(x)
                <==> overridden(inventory.paths@, x),
            forall|i: int| 0 <= i < r@.len() ==> (entry_of(inventory.paths@, (#[trigger] r@[i]).0@) matches Some(p)
                && views(r@[i].1@) == views(p@).drop_last()),
    {
        let mut names: Vec<String> = Vec::new();
        let mut i: usize = 0;
        while i < inventory.paths.len()
            invariant
                i <= inventory.paths@.len(),
                forall|q: int| 0 <= q < names@.len() ==> overridden(inventory.paths@, #[trigger] names@[q]@),
                forall|q: int| 0 <= q < i && overridden(inventory.paths@, #[trigger] inventory.paths@[q].0@)
                    ==> views(names@).contains(inventory.paths@[q].0@),
            decreases inventory.paths.len() - i,
        {
            let name = inventory.paths[i].0.as_str();
            match inventory.feature_paths(name) {
                Some(p) => {
                    if p.len() > 1 {
                        let ghost n0 = names@;
                        names.push(owned(name));
                        proof {
                            assert(views(names@)[n0.len() as int] == name@);
                            assert forall|q: int| 0 <= q < i + 1 && overridden(inventory.paths@, #[trigger] inventory.paths@[q].0@)
                                implies views(names@).contains(inventory.paths@[q].0@) by {
                                if q < i {
                                    let k = choose|k: int| 0 <= k < views(n0).len() && views(n0)[k] == inventory.paths@[q].0@;
                                    assert(views(names@)[k] == inventory.paths@[q].0@);
                                }
                            }
                        }
                    }
                },
                None => {},
            }
            i += 1;
        }
        proof {
            assert forall|x: Seq<char>| overridden(inventory.paths@, x) implies #[trigger] views(names@).contains(x) by {
                lemma_entry_index(inventory.paths@, x);
            }
        }
        let keys = sorted_unique_strings(names);
        let mut r: Vec<(String, Vec<String>)> = Vec::new();
        let mut q: usize = 0;
        while q < keys.len()
            invariant
                q <= keys@.len(),
                forall|x: Seq<char>| #[trigger] views(keys@).contains(x) <==> overridden(inventory.paths@, x),
                keys_of(r@) == views(keys@).take(q as int),
                forall|k: int| 0 <= k < r@.len() ==> (entry_of(inventory.paths@, (#[trigger] r@[k]).0@) matches Some(p)
                    && views(r@[k].1@) == views(p@).drop_last()),
            decreases keys.len() - q,
        {
            let name = keys[q].as_str();
            proof {
                assert(views(keys@)[q as int] == name@);
                assert(views(keys@).contains(name@));
            }
            let p = match inventory.feature_paths(name) {
                Some(p) => p,
                None => &[],
            };
            let ignored = copy_prefix(p, if p.len() > 0 { p.len() - 1 } else { 0 });
            let ghost r0 = r@;
            r.push((owned(name), ignored));
            proof {
                assert(keys_of(r@) =~= keys_of(r0).push(name@));
                assert(views(keys@).take(q + 1) =~= views(keys@).take(q as int).push(name@));
                assert forall|k: int| 0 <= k < r@.len() implies (entry_of(inventory.paths@, (#[trigger] r@[k]).0@) matches Some(p)
                    && views(r@[k].1@) == views(p@).drop_last()) by {
                    if k < r0.len() {
                        assert(r@[k] == r0[k]);
                    }
                }
            }
            q += 1;
        }
        proof {
            assert(views(keys@).take(keys@.len() as int) =~= views(keys@));
        }
        r
    }

    /// The features whose earlier files are overridden (same as `ignored_feature_paths`).
    pub fn features_ignored(&self, inventory: &FeatureInventory) -> (r: Vec<(String, Vec<String>)>)
        ensures
            strictly_sorted_strs(keys_of(r@)),
            forall|x: Seq<char>| #[trigger] keys_of(r@).contains(x)
                <==> overridden(inventory.paths@, x),
            forall|i: int| 0 <= i < r@.len() ==> (entry_of(inventory.paths@, (#[trigger] r@[i]).0@) matches Some(p)
                && views(r@[i].1@) == views(p@).drop_last()),
    {
        self.ignored_feature_paths(inventory)
    }

    /// The overridden features (camel-case name).
    #[allow(non_snake_case)]
    pub fn featuresIgnored(&self, inventory: &FeatureInventory) -> (r: Vec<(String, Vec<String>)>)
        ensures
            strictly_sorted_strs(keys_of(r@)),
            forall|x: Seq<char>| #[trigger] keys_of(r@).contains(x)
                <==> overridden(inventory.paths@, x),
            forall|i: int| 0 <= i < r@.len() ==> (entry_of(inventory.paths@, (#[trigger] r@[i]).0@) matches Some(p)
                && views(r@[i].1@) == views(p@).drop_last()),
    {
        self.ignored_feature_paths(inventory)
    }
}

/// A key with an entry occurs as the key of some pair.
proof fn lemma_entry_index<V>(s: Seq<(String, V)>, x: Seq<char>)
    requires
        entry_of(s, x) is Some,
    ensures
        exists|q: int| 0 <= q < s.len() && (#[trigger] s[q]).0@ == x && entry_of(s, x) == Some(s[q].1),
    decreases s.len(),
{
    if s[0].0@ != x {
        lemma_entry_index(s.drop_first(), x);
        let q = choose|q: int| 0 <= q < s.drop_first().len() && (#[trigger] s.drop_first()[q]).0@ == x
            && entry_of(s.drop_first(), x) == Some(s.drop_first()[q].1);
        assert(s[q + 1] == s.drop_first()[q]);
    } else {
        assert(s[0].0@ == x);
    }
}

/// Copies of the strings.
fn copy_all(v: &[String]) -> (r: Vec<String>)
    ensures
        views(r@) == views(v@),
        r@.len() == v@.len(),
{
    let mut r: Vec<String> = Vec::new();
    let mut i: usize = 0;
    while i < v.len()
        invariant
            i <= v@.len(),
            r@.len() == i,
            views(r@) == views(v@).take(i as int),
        decreases v.len() - i,
    {
        let ghost r0 = views(r@);
        r.push(copy_string(&v[i]));
        proof {
            assert(views(r@) =~= r0.push(v@[i as int]@));
            assert(views(v@).take(i + 1) =~= views(v@).take(i as int).push(v@[i as int]@));
        }
        i += 1;
    }
    proof {
        assert(views(v@).take(v@.len() as int) =~= views(v@));
    }
    r
}

/// Copies of the first `n` strings.
fn copy_prefix(v: &[String], n: usize) -> (r: Vec<String>)
    requires
        n <= v@.len(),
    ensures
        views(r@) == views(v@).take(n as int),
{
    let mut r: Vec<String> = Vec::new();
    let mut i: usize = 0;
    while i < n
        invariant
            i <= n <= v@.len(),
            views(r@) == views(v@).take(i as int),
        decreases n - i,
    {
        let ghost r0 = views(r@);
        r.push(copy_string(&v[i]));
        proof {
            assert(views(r@) =~= r0.push(v@[i as int]@));
            assert(views(v@).take(i + 1) =~= views(v@).take(i as int).push(v@[i as int]@));
        }
        i += 1;
    }
    r
}

/// A separator in a feature request: whitespace or a comma.
pub open spec fn is_name_sep(c: char) -> bool {
    is_ws(c) || c == ','
}

/// The names of a feature request read from `s`, with `cur` the name being read and
/// `acc` the names before it.
pub open spec fn words_from(s: Seq<char>, cur: Seq<char>, acc: Seq<Seq<char>>) -> Seq<Seq<char>>
    decreases s.len(),
{
    if s.len() == 0 {
        if cur.len() > 0 {
            acc.push(cur)
        } else {
            acc
        }
    } else if is_name_sep(s[0]) {
        words_from(s.skip(1), seq![], if cur.len() > 0 { acc.push(cur) } else { acc })
    } else {
        words_from(s.skip(1), cur.push(s[0]), acc)
    }
}

/// The names of a feature request: the non-empty pieces between separators.
pub open spec fn feature_words(s: Seq<char>) -> Seq<Seq<char>> {
    words_from(s, seq![], seq![])
}

/// The names in a feature request.
pub fn split_feature_names(s: &str) -> (r: Vec<String>)
    ensures
        views(r@) == feature_words(s@),
{
    let v = to_chars(s);
    let mut acc: Vec<String> = Vec::new();
    let mut cur: Vec<char> = Vec::new();
    let mut i: usize = 0;
    proof {
        assert(v@.skip(0) =~= v@);
        assert(views(acc@) =~= Seq::<Seq<char>>::empty());
    }
    while i < v.len()
        invariant
            i <= v@.len(),
            v@ == s@,
            feature_words(s@) == words_from(v@.skip(i as int), cur@, views(acc@)),
        decreases v.len() - i,
    {
        let c = v[i];
        let ghost rest = v@.skip(i as int);
        let ghost cur0 = cur@;
        let ghost acc0 = views(acc@);
        proof {
            assert(rest[0] == c);
            assert(rest.skip(1) =~= v@.skip(i + 1));
        }
        if is_whitespace(c) || c == ',' {
            if cur.len() > 0 {
                let w = from_chars(cur.as_slice());
                acc.push(w);
                proof {
                    assert(views(acc@) =~= acc0.push(cur0));
                }
            }
            cur = Vec::new();
            proof {
                assert(cur@ =~= Seq::<char>::empty());
            }
        } else {
            cur.push(c);
        }
        i += 1;
    }
    if cur.len() > 0 {
        let ghost acc0 = views(acc@);
        let w = from_chars(cur.as_slice());
        acc.push(w);
        proof {
            assert(views(acc@) =~= acc0.push(cur@));
        }
    }
    proof {
        assert(v@.skip(v@.len() as int).len() == 0);
    }
    acc
}

/// A request for features: one string of names separated by whitespace or commas, or a
/// list of names.
pub trait FeatureSpec {
    /// The names asked for.
    fn feature_names(self) -> Vec<String>;
}

impl<'a> FeatureSpec for &'a str {
    fn feature_names(self) -> (r: Vec<String>)
        ensures
            views(r@) == feature_words(self@),
    {
        split_feature_names(self)
    }
}

impl FeatureSpec for String {
    fn feature_names(self) -> (r: Vec<String>)
        ensures
            views(r@) == feature_words(self@),
    {
        split_feature_names(self.as_str())
    }
}

impl<'a, 'b> FeatureSpec for &'a [&'b str] {
    fn feature_names(self) -> (r: Vec<String>)
        ensures
            views(r@) == crate::corpus_info::str_views(self@),
    {
        let mut r: Vec<String> = Vec::new();
        let mut i: usize = 0;
        while i < self.len()
            invariant
                i <= self@.len(),
                views(r@) == crate::corpus_info::str_views(self@).take(i as int),
            decreases self.len() - i,
        {
            let ghost r0 = views(r@);
            r.push(owned(self[i]));
            proof {
                assert(views(r@) =~= r0.push(self@[i as int]@));
                assert(crate::corpus_info::str_views(self@).take(i + 1) =~= crate::corpus_info::str_views(self@).take(i as int).push(self@[i as int]@));
            }
            i += 1;
        }
        proof {
            assert(crate::corpus_info::str_views(self@).take(self@.len() as int) =~= crate::corpus_info::str_views(self@));
        }
        r
    }
}

impl<'a> FeatureSpec for Vec<&'a str> {
    fn feature_names(self) -> (r: Vec<String>)
        ensures
            views(r@) == crate::corpus_info::str_views(self@),
    {
        self.as_slice().feature_names()
    }
}

impl FeatureSpec for Vec<String> {
    fn feature_names(self) -> (r: Vec<String>)
        ensures
            r == self,
    {
        self
    }
}

} // verus!
