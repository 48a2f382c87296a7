//! Command-line arguments of the corpus tools: tasks, `name=value` parameters and
//! `-flag` / `+flag` / `++flag` switches, with the help text that lists them.
//!
//! The tables of possible tasks, parameters and flags, and the set of tasks that `all`
//! leaves out, are maps and sets: their keys come in ascending order, each once.

use vstd::prelude::*;
use crate::query::{split_once_char, split_once_spec};
use crate::sorting::{sorted_unique_strings, strictly_sorted_strs};
use crate::strs::{
    copy_string, dec_int, from_chars, i64_to_string, join_spec, owned, push_str, str_eq, str_le,
    str_lt, sub_chars, to_chars, views,
};

verus! {

broadcast use vstd::string::group_string_axioms;

/// The value of a flag: on/off, or one of three levels (-1, 0, 1).
#[derive(Debug, Clone, Copy, PartialEq, Eq, Structural)]
pub enum CliFlagValue {
    Bool(bool),
    Ternary(i8),
}

/// A possible flag: what it does, its default, and whether it has two values
/// (`-flag`, `+flag`) or three (`-flag`, `+flag`, `++flag`).
#[derive(Debug, Clone)]
pub struct CliFlagSpec {
    pub description: String,
    pub default: CliFlagValue,
    pub n_values: u8,
}

/// The outcome of reading arguments: whether they were good, the tasks to do, the
/// parameters and flags (each with its key, ascending), and messages to show.
#[derive(Debug, Clone)]
pub struct CliReadResult {
    pub good: bool,
    pub tasks: Vec<(String, bool)>,
    pub params: Vec<(String, String)>,
    pub flags: Vec<(String, CliFlagValue)>,
    pub messages: Vec<String>,
}

// ---------------------------------------------------------------------------
// Views of the tables
// ---------------------------------------------------------------------------

/// The keys of a table of pairs.
pub open spec fn keys_of<V>(t: Seq<(String, V)>) -> Seq<Seq<char>> {
    t.map_values(|p: (String, V)| p.0@)
}

/// A table's keys ascend, each once, as in a map.
pub open spec fn is_map_table<V>(t: Seq<(String, V)>) -> bool {
    strictly_sorted_strs(keys_of(t))
}

/// The text of a flag value: `true`/`false`, or the level in decimal.
pub open spec fn flag_value_text(v: CliFlagValue) -> Seq<char> {
    match v {
        CliFlagValue::Bool(b) => if b {
            "true"@
        } else {
            "false"@
        },
        CliFlagValue::Ternary(t) => dec_int(t as int),
    }
}

// ---------------------------------------------------------------------------
// The help text
// ---------------------------------------------------------------------------

/// One line block per task: `\t{task}:\n\t\t{help}\n`.
pub open spec fn task_help(tasks: Seq<(String, String)>) -> Seq<char>
    decreases tasks.len(),
{
    if tasks.len() == 0 {
        seq![]
    } else {
        task_help(tasks.drop_last()) + "\t"@ + tasks.last().0@ + ":\n\t\t"@ + tasks.last().1@ + "\n"@
    }
}

/// The entry for `all`, naming the tasks it leaves out.
pub open spec fn all_help(not_in_all: Seq<Seq<char>>) -> Seq<char> {
    "all:\n\t\tall tasks"@ + if not_in_all.len() == 0 {
        seq![]
    } else {
        " except "@ + join_spec(not_in_all, ", "@)
    }
}

/// One line block per parameter: `\t{param}={default}:\n\t\t{help}\n`.
pub open spec fn param_help(params: Seq<(String, (String, String))>) -> Seq<char>
    decreases params.len(),
{
    if params.len() == 0 {
        seq![]
    } else {
        let p = params.last();
        param_help(params.drop_last()) + "\t"@ + p.0@ + "="@ + p.1.1@ + ":\n\t\t"@ + p.1.0@ + "\n"@
    }
}

/// The help entries of one flag.
pub open spec fn flag_help_entries(name: Seq<char>, spec: CliFlagSpec) -> Seq<Seq<char>> {
    let head = "\t"@ + name + "="@ + flag_value_text(spec.default) + ":\n\t\t"@ + spec.description@ + "\n"@;
    if spec.n_values == 2 {
        seq![head, "\t\t-"@ + name + ": no "@ + name, "\t\t+"@ + name + ": yes "@ + name]
    } else if spec.n_values == 3 {
        seq![
            head,
            "\t\t-"@ + name + ": no "@ + name,
            "\t\t+"@ + name + ": a bit "@ + name,
            "\t\t++"@ + name + ": more "@ + name,
        ]
    } else {
        seq![head]
    }
}

/// The help entries of all flags, in order.
pub open spec fn flag_help(flags: Seq<(String, CliFlagSpec)>) -> Seq<Seq<char>>
    decreases flags.len(),
{
    if flags.len() == 0 {
        seq![]
    } else {
        flag_help(flags.drop_last()) + flag_help_entries(flags.last().0@, flags.last().1)
    }
}

/// The help text of a command.
pub open spec fn help_text(
    command: Seq<char>,
    description: Seq<char>,
    tasks: Seq<(String, String)>,
    params: Seq<(String, (String, String))>,
    flags: Seq<(String, CliFlagSpec)>,
    not_in_all: Seq<Seq<char>>,
) -> Seq<char> {
    command + " [tasks/params/flags] [--help]\n\n"@ + description
        + "\n\n--help: show this text and exit\n\ntasks:\n"@ + task_help(tasks) + all_help(not_in_all)
        + "\n\nparameters:\n"@ + param_help(params) + "\n\nflags:\n"@ + join_spec(flag_help(flags), "\n"@)
}

/// The text of a flag value.
fn flag_value_string(v: CliFlagValue) -> (r: String)
    ensures
        r@ == flag_value_text(v),
{
    match v {
        CliFlagValue::Bool(b) => if b {
            owned("true")
        } else {
            owned("false")
        },
        CliFlagValue::Ternary(t) => i64_to_string(t as i64),
    }
}

/// Appends each string of `parts` to `out`, with `sep` between neighbours.
fn push_joined(out: &mut String, parts: &Vec<String>, sep: &str)
    ensures
        final(out)@ == old(out)@ + join_spec(views(parts@), sep@),
{
    let j = crate::strs::join_strings(parts.as_slice(), sep);
    push_str(out, j.as_str());
}

/// Builds the help text.
fn build_help(
    command: &str,
    description: &str,
    tasks: &[(String, String)],
    params: &[(String, (String, String))],
    flags: &[(String, CliFlagSpec)],
    not_in_all: &[String],
) -> (r: String)
    ensures
        r@ == help_text(command@, description@, tasks@, params@, flags@, views(not_in_all@)),
{
    let mut t = owned(command);
    push_str(&mut t, " [tasks/params/flags] [--help]\n\n");
    push_str(&mut t, description);
    push_str(&mut t, "\n\n--help: show this text and exit\n\ntasks:\n");
    let mut i: usize = 0;
    let ghost base = t@;
    while i < tasks.len()
        invariant
            i <= tasks@.len(),
            t@ == base + task_help(tasks@.take(i as int)),
        decreases tasks.len() - i,
    {
        proof {
            assert(tasks@.take(i + 1).drop_last() =~= tasks@.take(i as int));
        }
        push_str(&mut t, "\t");
        push_str(&mut t, tasks[i].0.as_str());
        push_str(&mut t, ":\n\t\t");
        push_str(&mut t, tasks[i].1.as_str());
        push_str(&mut t, "\n");
        proof {
            assert(t@ =~= base + task_help(tasks@.take(i + 1)));
        }
        i += 1;
    }
    proof {
        assert(tasks@.take(tasks@.len() as int) =~= tasks@);
    }
    push_str(&mut t, "all:\n\t\tall tasks");
    if not_in_all.len() > 0 {
        push_str(&mut t, " except ");
        let mut nia: Vec<String> = Vec::new();
        let mut k: usize = 0;
        while k < not_in_all.len()
            invariant
                k <= not_in_all@.len(),
                views(nia@) == views(not_in_all@).take(k as int),
            decreases not_in_all.len() - k,
        {
            let ghost n0 = views(nia@);
            nia.push(copy_string(&not_in_all[k]));
            proof {
                assert(views(nia@) =~= n0.push(not_in_all@[k as int]@));
                assert(views(not_in_all@).take(k + 1) =~= views(not_in_all@).take(k as int).push(not_in_all@[k as int]@));
            }
            k += 1;
        }
        proof {
            assert(views(not_in_all@).take(not_in_all@.len() as int) =~= views(not_in_all@));
        }
        push_joined(&mut t, &nia, ", ");
    }
    proof {
        assert(t@ =~= base + task_help(tasks@) + all_help(views(not_in_all@)));
    }
    push_str(&mut t, "\n\nparameters:\n");
    let ghost base2 = t@;
    let mut p: usize = 0;
    while p < params.len()
        invariant
            p <= params@.len(),
            t@ == base2 + param_help(params@.take(p as int)),
        decreases params.len() - p,
    {
        proof {
            assert(params@.take(p + 1).drop_last() =~= params@.take(p as int));
        }
        push_str(&mut t, "\t");
        push_str(&mut t, params[p].0.as_str());
        push_str(&mut t, "=");
        push_str(&mut t, params[p].1.1.as_str());
        push_str(&mut t, ":\n\t\t");
        push_str(&mut t, params[p].1.0.as_str());
        push_str(&mut t, "\n");
        proof {
            assert(t@ =~= base2 + param_help(params@.take(p + 1)));
        }
        p += 1;
    }
    proof {
        assert(params@.take(params@.len() as int) =~= params@);
    }
    push_str(&mut t, "\n\nflags:\n");
    let mut items: Vec<String> = Vec::new();
    let mut f: usize = 0;
    while f < flags.len()
        invariant
            f <= flags@.len(),
            views(items@) == flag_help(flags@.take(f as int)),
        decreases flags.len() - f,
    {
        proof {
            assert(flags@.take(f + 1).drop_last() =~= flags@.take(f as int));
        }
        let name = flags[f].0.as_str();
        let spec = &flags[f].1;
        let ghost i0 = views(items@);
        let mut head = owned("\t");
        push_str(&mut head, name);
        push_str(&mut head, "=");
        let rep = flag_value_string(spec.default);
        push_str(&mut head, rep.as_str());
        push_str(&mut head, ":\n\t\t");
        push_str(&mut head, spec.description.as_str());
        push_str(&mut head, "\n");
        items.push(head);
        if spec.n_values == 2 || spec.n_values == 3 {
            let mut no = owned("\t\t-");
            push_str(&mut no, name);
            push_str(&mut no, ": no ");
            push_str(&mut no, name);
            items.push(no);
            let mut yes = owned("\t\t+");
            push_str(&mut yes, name);
            if spec.n_values == 2 {
                push_str(&mut yes, ": yes ");
            } else {
                push_str(&mut yes, ": a bit ");
            }
            push_str(&mut yes, name);
            items.push(yes);
            if spec.n_values == 3 {
                let mut more = owned("\t\t++");
                push_str(&mut more, name);
                push_str(&mut more, ": more ");
                push_str(&mut more, name);
                items.push(more);
            }
        }
        proof {
            assert(views(items@) =~= i0 + flag_help_entries(flags@[f as int].0@, flags@[f as int].1));
            assert(flag_help(flags@.take(f + 1)) == flag_help(flags@.take(f as int)) + flag_help_entries(
                flags@[f as int].0@,
                flags@[f as int].1,
            ));
        }
        f += 1;
    }
    proof {
        assert(flags@.take(flags@.len() as int) =~= flags@);
    }
    push_joined(&mut t, &items, "\n");
    proof {
        assert(t@ =~= help_text(command@, description@, tasks@, params@, flags@, views(not_in_all@)));
    }
    t
}

// ---------------------------------------------------------------------------
// Reading the arguments
// ---------------------------------------------------------------------------

/// `a` names a task (or `all`).
pub open spec fn is_task_arg(tasks: Seq<(String, String)>, a: Seq<char>) -> bool {
    keys_of(tasks).contains(a) || a == "all"@
}

/// The value that switch `a` sets for a flag called `name`, if `a` is one of its switches.
pub open spec fn flag_switch(name: Seq<char>, spec: CliFlagSpec, a: Seq<char>) -> Option<CliFlagValue> {
    if spec.n_values == 2 {
        if a == "-"@ + name {
            Some(CliFlagValue::Bool(false))
        } else if a == "+"@ + name {
            Some(CliFlagValue::Bool(true))
        } else {
            None
        }
    } else if spec.n_values == 3 {
        if a == "-"@ + name {
            Some(CliFlagValue::Ternary(-1i8))
        } else if a == "+"@ + name {
            Some(CliFlagValue::Ternary(0i8))
        } else if a == "++"@ + name {
            Some(CliFlagValue::Ternary(1i8))
        } else {
            None
        }
    } else {
        None
    }
}

/// The value that switch `a` sets, by the last flag that has `a` as a switch.
pub open spec fn switch_value(flags: Seq<(String, CliFlagSpec)>, a: Seq<char>) -> Option<CliFlagValue>
    decreases flags.len(),
{
    if flags.len() == 0 {
        None
    } else {
        match flag_switch(flags.last().0@, flags.last().1, a) {
            Some(v) => Some(v),
            None => switch_value(flags.drop_last(), a),
        }
    }
}

/// The default of flag `k`, when it has switches.
pub open spec fn flag_default(flags: Seq<(String, CliFlagSpec)>, k: Seq<char>) -> Option<CliFlagValue>
    decreases flags.len(),
{
    if flags.len() == 0 {
        None
    } else if flags.last().0@ == k && (flags.last().1.n_values == 2 || flags.last().1.n_values == 3) {
        Some(flags.last().1.default)
    } else {
        flag_default(flags.drop_last(), k)
    }
}

/// The default of parameter `k`.
pub open spec fn param_default(params: Seq<(String, (String, String))>, k: Seq<char>) -> Option<Seq<char>>
    decreases params.len(),
{
    if params.len() == 0 {
        None
    } else if params.last().0@ == k {
        Some(params.last().1.1@)
    } else {
        param_default(params.drop_last(), k)
    }
}

/// The name part of a parameter argument: before the first `=`.
pub open spec fn arg_key(a: Seq<char>) -> Seq<char> {
    match split_once_spec(a, '=') {
        Some(p) => p.0,
        None => a,
    }
}

/// The value part of a parameter argument: after the first `=`, empty without one.
pub open spec fn arg_value(a: Seq<char>) -> Seq<char> {
    match split_once_spec(a, '=') {
        Some(p) => p.1,
        None => seq![],
    }
}

/// The number of leading `+` and `-` signs.
pub open spec fn sign_count(a: Seq<char>) -> nat
    decreases a.len(),
{
    if a.len() > 0 && (a[0] == '+' || a[0] == '-') {
        1 + sign_count(a.drop_first())
    } else {
        0
    }
}

/// A switch without its leading signs: the flag it is about.
pub open spec fn unsigned(a: Seq<char>) -> Seq<char> {
    a.skip(sign_count(a) as int)
}

/// Argument `a` is a known task, switch or parameter.
pub open spec fn is_legal_arg(
    tasks: Seq<(String, String)>,
    params: Seq<(String, (String, String))>,
    flags: Seq<(String, CliFlagSpec)>,
    a: Seq<char>,
) -> bool {
    is_task_arg(tasks, a) || switch_value(flags, a) is Some || param_default(params, arg_key(a)) is Some
}

/// `a` is a given switch (and no task).
pub open spec fn is_switch_arg(
    tasks: Seq<(String, String)>,
    flags: Seq<(String, CliFlagSpec)>,
    args: Seq<String>,
    a: Seq<char>,
) -> bool {
    views(args).contains(a) && !is_task_arg(tasks, a) && switch_value(flags, a) is Some
}

/// `a` is a given parameter argument (neither a task nor a switch).
pub open spec fn is_param_arg(
    tasks: Seq<(String, String)>,
    flags: Seq<(String, CliFlagSpec)>,
    args: Seq<String>,
    a: Seq<char>,
) -> bool {
    views(args).contains(a) && !is_task_arg(tasks, a) && switch_value(flags, a) is None
}

/// `a` is the greatest given switch for flag `k`: it decides the flag.
pub open spec fn deciding_switch(
    tasks: Seq<(String, String)>,
    flags: Seq<(String, CliFlagSpec)>,
    args: Seq<String>,
    k: Seq<char>,
    a: Seq<char>,
) -> bool {
    &&& is_switch_arg(tasks, flags, args, a) && unsigned(a) == k
    &&& forall|b: Seq<char>| #[trigger] is_switch_arg(tasks, flags, args, b) && unsigned(b) == k ==> str_le(b, a)
}

/// `a` is the greatest given argument for parameter `k`: it decides the parameter.
pub open spec fn deciding_param(
    tasks: Seq<(String, String)>,
    flags: Seq<(String, CliFlagSpec)>,
    args: Seq<String>,
    k: Seq<char>,
    a: Seq<char>,
) -> bool {
    &&& is_param_arg(tasks, flags, args, a) && arg_key(a) == k
    &&& forall|b: Seq<char>| #[trigger] is_param_arg(tasks, flags, args, b) && arg_key(b) == k ==> str_le(b, a)
}

/// The flags of a good reading: every flag with a given switch or a default, valued by
/// its greatest switch, else by its default.
pub open spec fn flags_ok(
    tasks: Seq<(String, String)>,
    flags: Seq<(String, CliFlagSpec)>,
    args: Seq<String>,
    out: Seq<(String, CliFlagValue)>,
) -> bool {
    &&& is_map_table(out)
    &&& forall|k: Seq<char>| #[trigger] keys_of(out).contains(k) <==> ((exists|a: Seq<char>|
        #[trigger] is_switch_arg(tasks, flags, args, a) && unsigned(a) == k) || flag_default(flags, k) is Some)
    &&& forall|i: int| 0 <= i < out.len() ==> {
        let k = (#[trigger] out[i]).0@;
        ||| exists|a: Seq<char>| #[trigger] deciding_switch(tasks, flags, args, k, a) && switch_value(flags, a) == Some(out[i].1)
        ||| !(exists|a: Seq<char>| #[trigger] is_switch_arg(tasks, flags, args, a) && unsigned(a) == k)
            && flag_default(flags, k) == Some(out[i].1)
    }
}

/// The value a deciding parameter argument gives: its value part, or the default when
/// that is empty.
pub open spec fn param_value_of(params: Seq<(String, (String, String))>, a: Seq<char>) -> Seq<char> {
    if arg_value(a).len() == 0 {
        match param_default(params, arg_key(a)) {
            Some(d) => d,
            None => seq![],
        }
    } else {
        arg_value(a)
    }
}

/// The parameters of a good reading: every given or defaulted parameter, valued by its
/// greatest argument, else by its default.
pub open spec fn params_ok(
    tasks: Seq<(String, String)>,
    params: Seq<(String, (String, String))>,
    flags: Seq<(String, CliFlagSpec)>,
    args: Seq<String>,
    out: Seq<(String, String)>,
) -> bool {
    &&& is_map_table(out)
    &&& forall|k: Seq<char>| #[trigger] keys_of(out).contains(k) <==> ((exists|a: Seq<char>|
        #[trigger] is_param_arg(tasks, flags, args, a) && arg_key(a) == k) || param_default(params, k) is Some)
    &&& forall|i: int| 0 <= i < out.len() ==> {
        let k = (#[trigger] out[i]).0@;
        ||| exists|a: Seq<char>| #[trigger] deciding_param(tasks, flags, args, k, a) && out[i].1@ == param_value_of(params, a)
        ||| !(exists|a: Seq<char>| #[trigger] is_param_arg(tasks, flags, args, a) && arg_key(a) == k)
            && param_default(params, k) == Some(out[i].1@)
    }
}

/// The tasks of a good reading: with `all`, every task but `all` and those it leaves out;
/// else the given tasks but `all`. Each is set to do.
pub open spec fn tasks_ok(
    tasks: Seq<(String, String)>,
    not_in_all: Seq<Seq<char>>,
    args: Seq<String>,
    out: Seq<(String, bool)>,
) -> bool {
    &&& is_map_table(out)
    &&& forall|i: int| 0 <= i < out.len() ==> (#[trigger] out[i]).1
    &&& forall|k: Seq<char>| #[trigger] keys_of(out).contains(k) <==> if views(args).contains("all"@) {
        keys_of(tasks).contains(k) && k != "all"@ && !not_in_all.contains(k)
    } else {
        views(args).contains(k) && keys_of(tasks).contains(k) && k != "all"@
    }
}

/// The message for an argument that is not known.
pub open spec fn illegal_message(a: Seq<char>) -> Seq<char> {
    "Illegal argument `"@ + a + "`"@
}

fn copy_strs(v: &[String]) -> (r: Vec<String>)
    ensures
        views(r@) == views(v@),
{
    let mut r: Vec<String> = Vec::new();
    let mut i: usize = 0;
    while i < v.len()
        invariant
            i <= v@.len(),
            views(r@) == views(v@).take(i as int),
        decreases v.len() - i,
    {
        let ghost r0 = views(r@);
        r.push(copy_string(&v[i]));
        proof {
            assert(views(r@) =~= r0.push(v@[i as int]@));
            assert(views(v@).take(i + 1) =~= views(v@).take(i as int).push(v@[i as int]@));
        }
        i += 1;
    }
    proof {
        assert(views(v@).take(v@.len() as int) =~= views(v@));
    }
    r
}

fn has_str(v: &[String], s: &str) -> (r: bool)
    ensures
        r == views(v@).contains(s@),
{
    let mut i: usize = 0;
    while i < v.len()
        invariant
            i <= v@.len(),
            forall|j: int| 0 <= j < i ==> v@[j]@ != s@,
        decreases v.len() - i,
    {
        if str_eq(v[i].as_str(), s) {
            assert(views(v@)[i as int] == s@);
            return true;
        }
        i += 1;
    }
    proof {
        if views(v@).contains(s@) {
            let j = choose|j: int| 0 <= j < views(v@).len() && views(v@)[j] == s@;
            assert(v@[j]@ == s@);
        }
    }
    false
}

fn is_task_arg_exec(tasks: &[(String, String)], a: &str) -> (r: bool)
    ensures
        r == is_task_arg(tasks@, a@),
{
    let mut i: usize = 0;
    while i < tasks.len()
        invariant
            i <= tasks@.len(),
            forall|j: int| 0 <= j < i ==> tasks@[j].0@ != a@,
        decreases tasks.len() - i,
    {
        if str_eq(tasks[i].0.as_str(), a) {
            assert(keys_of(tasks@)[i as int] == a@);
            return true;
        }
        i += 1;
    }
    proof {
        if keys_of(tasks@).contains(a@) {
            let j = choose|j: int| 0 <= j < keys_of(tasks@).len() && keys_of(tasks@)[j] == a@;
            assert(tasks@[j].0@ == a@);
        }
    }
    str_eq(a, "all")
}

fn prefixed(prefix: &str, name: &str) -> (r: String)
    ensures
        r@ == prefix@ + name@,
{
    let mut r = owned(prefix);
    push_str(&mut r, name);
    r
}

fn flag_switch_exec(name: &str, spec: &CliFlagSpec, a: &str) -> (r: Option<CliFlagValue>)
    ensures
        r == flag_switch(name@, *spec, a@),
{
    if spec.n_values == 2 {
        if str_eq(a, prefixed("-", name).as_str()) {
            Some(CliFlagValue::Bool(false))
        } else if str_eq(a, prefixed("+", name).as_str()) {
            Some(CliFlagValue::Bool(true))
        } else {
            None
        }
    } else if spec.n_values == 3 {
        if str_eq(a, prefixed("-", name).as_str()) {
            Some(CliFlagValue::Ternary(-1))
        } else if str_eq(a, prefixed("+", name).as_str()) {
            Some(CliFlagValue::Ternary(0))
        } else if str_eq(a, prefixed("++", name).as_str()) {
            Some(CliFlagValue::Ternary(1))
        } else {
            None
        }
    } else {
        None
    }
}

fn switch_value_exec(flags: &[(String, CliFlagSpec)], a: &str) -> (r: Option<CliFlagValue>)
    ensures
        r == switch_value(flags@, a@),
{
    let mut k: usize = flags.len();
    proof {
        assert(flags@.take(k as int) =~= flags@);
    }
    while k > 0
        invariant
            k <= flags@.len(),
            switch_value(flags@, a@) == switch_value(flags@.take(k as int), a@),
        decreases k,
    {
        proof {
            assert(flags@.take(k as int).drop_last() =~= flags@.take(k - 1));
            assert(flags@.take(k as int).last() == flags@[k - 1]);
        }
        match flag_switch_exec(flags[k - 1].0.as_str(), &flags[k - 1].1, a) {
            Some(v) => {
                return Some(v);
            },
            None => {},
        }
        k -= 1;
    }
    None
}

fn flag_default_exec(flags: &[(String, CliFlagSpec)], key: &str) -> (r: Option<CliFlagValue>)
    ensures
        r == flag_default(flags@, key@),
{
    let mut k: usize = flags.len();
    proof {
        assert(flags@.take(k as int) =~= flags@);
    }
    while k > 0
        invariant
            k <= flags@.len(),
            flag_default(flags@, key@) == flag_default(flags@.take(k as int), key@),
        decreases k,
    {
        proof {
            assert(flags@.take(k as int).drop_last() =~= flags@.take(k - 1));
            assert(flags@.take(k as int).last() == flags@[k - 1]);
        }
        let f = &flags[k - 1];
        if str_eq(f.0.as_str(), key) && (f.1.n_values == 2 || f.1.n_values == 3) {
            return Some(f.1.default);
        }
        k -= 1;
    }
    None
}

fn param_default_exec(params: &[(String, (String, String))], key: &str) -> (r: Option<String>)
    ensures
        crate::corpus_text::opt_string(r) == param_default(params@, key@),
{
    let mut k: usize = params.len();
    proof {
        assert(params@.take(k as int) =~= params@);
    }
    while k > 0
        invariant
            k <= params@.len(),
            param_default(params@, key@) == param_default(params@.take(k as int), key@),
        decreases k,
    {
        proof {
            assert(params@.take(k as int).drop_last() =~= params@.take(k - 1));
            assert(params@.take(k as int).last() == params@[k - 1]);
        }
        if str_eq(params[k - 1].0.as_str(), key) {
            return Some(copy_string(&params[k - 1].1.1));
        }
        k -= 1;
    }
    None
}

fn arg_key_exec(a: &str) -> (r: String)
    ensures
        r@ == arg_key(a@),
{
    match split_once_char(a, '=') {
        Some(p) => p.0,
        None => owned(a),
    }
}

fn arg_value_exec(a: &str) -> (r: String)
    ensures
        r@ == arg_value(a@),
{
    match split_once_char(a, '=') {
        Some(p) => p.1,
        None => {
            let e = String::new();
            proof {
                assert(e@ =~= Seq::<char>::empty());
            }
            e
        },
    }
}

proof fn lemma_sign_count(a: Seq<char>, i: int)
    requires
        0 <= i <= a.len(),
        forall|j: int| 0 <= j < i ==> a[j] == '+' || a[j] == '-',
    ensures
        sign_count(a) == i + sign_count(a.skip(i)),
    decreases i,
{
    if i > 0 {
        lemma_sign_count(a.drop_first(), i - 1);
        assert(a.drop_first().skip(i - 1) =~= a.skip(i));
    } else {
        assert(a.skip(0) =~= a);
    }
}

fn unsigned_exec(a: &str) -> (r: String)
    ensures
        r@ == unsigned(a@),
{
    let v = to_chars(a);
    let mut i: usize = 0;
    while i < v.len() && (v[i] == '+' || v[i] == '-')
        invariant
            i <= v@.len(),
            v@ == a@,
            forall|j: int| 0 <= j < i ==> v@[j] == '+' || v@[j] == '-',
        decreases v.len() - i,
    {
        i += 1;
    }
    proof {
        lemma_sign_count(a@, i as int);
        assert(sign_count(a@.skip(i as int)) == 0);
    }
    from_chars(sub_chars(v.as_slice(), i, v.len()).as_slice())
}

fn is_legal_exec(
    tasks: &[(String, String)],
    params: &[(String, (String, String))],
    flags: &[(String, CliFlagSpec)],
    a: &str,
) -> (r: bool)
    ensures
        r == is_legal_arg(tasks@, params@, flags@, a@),
{
    if is_task_arg_exec(tasks, a) {
        return true;
    }
    if switch_value_exec(flags, a).is_some() {
        return true;
    }
    let key = arg_key_exec(a);
    param_default_exec(params, key.as_str()).is_some()
}

/// The position of the last switch for flag `k` among `aset`.
fn last_switch_for(
    tasks: &[(String, String)],
    flags: &[(String, CliFlagSpec)],
    aset: &Vec<String>,
    k: &str,
) -> (r: Option<usize>)
    ensures
        match r {
            Some(m) => m < aset@.len() && !is_task_arg(tasks@, aset@[m as int]@)
                && switch_value(flags@, aset@[m as int]@) is Some && unsigned(aset@[m as int]@) == k@
                && forall|j: int| m < j < aset@.len() ==> !(!is_task_arg(tasks@, #[trigger] aset@[j]@)
                    && switch_value(flags@, aset@[j]@) is Some && unsigned(aset@[j]@) == k@),
            None => forall|j: int| 0 <= j < aset@.len() ==> !(!is_task_arg(tasks@, #[trigger] aset@[j]@)
                && switch_value(flags@, aset@[j]@) is Some && unsigned(aset@[j]@) == k@),
        },
{
    let mut j: usize = aset.len();
    while j > 0
        invariant
            j <= aset@.len(),
            forall|q: int| j <= q < aset@.len() ==> !(!is_task_arg(tasks@, #[trigger] aset@[q]@)
                && switch_value(flags@, aset@[q]@) is Some && unsigned(aset@[q]@) == k@),
        decreases j,
    {
        let a = aset[j - 1].as_str();
        if !is_task_arg_exec(tasks, a) && switch_value_exec(flags, a).is_some() && str_eq(unsigned_exec(a).as_str(), k) {
            return Some(j - 1);
        }
        j -= 1;
    }
    None
}

/// The position of the last parameter argument for parameter `k` among `aset`.
fn last_param_for(
    tasks: &[(String, String)],
    flags: &[(String, CliFlagSpec)],
    aset: &Vec<String>,
    k: &str,
) -> (r: Option<usize>)
    ensures
        match r {
            Some(m) => m < aset@.len() && !is_task_arg(tasks@, aset@[m as int]@)
                && switch_value(flags@, aset@[m as int]@) is None && arg_key(aset@[m as int]@) == k@
                && forall|j: int| m < j < aset@.len() ==> !(!is_task_arg(tasks@, #[trigger] aset@[j]@)
                    && switch_value(flags@, aset@[j]@) is None && arg_key(aset@[j]@) == k@),
            None => forall|j: int| 0 <= j < aset@.len() ==> !(!is_task_arg(tasks@, #[trigger] aset@[j]@)
                && switch_value(flags@, aset@[j]@) is None && arg_key(aset@[j]@) == k@),
        },
{
    let mut j: usize = aset.len();
    while j > 0
        invariant
            j <= aset@.len(),
            forall|q: int| j <= q < aset@.len() ==> !(!is_task_arg(tasks@, #[trigger] aset@[q]@)
                && switch_value(flags@, aset@[q]@) is None && arg_key(aset@[q]@) == k@),
        decreases j,
    {
        let a = aset[j - 1].as_str();
        if !is_task_arg_exec(tasks, a) && switch_value_exec(flags, a).is_none() && str_eq(arg_key_exec(a).as_str(), k) {
            return Some(j - 1);
        }
        j -= 1;
    }
    None
}

/// Reads command-line arguments against the possible tasks, parameters and flags.
///
/// With no arguments, or with `--help` or `-h`, the reading is good and only shows the
/// help (adding "No task specified" when there are no arguments). An unknown argument
/// makes it bad, with the help and one message per unknown argument, ascending.
/// Otherwise the tasks, parameters and flags are read: a switch `-f`, `+f` or `++f` sets
/// flag `f`, an argument `p=v` (or `p`) sets parameter `p` (to its default when `v` is
/// empty); flags and parameters not given take their defaults; `all` stands for every
/// task but those it leaves out.
pub fn read_args(
    command: &str,
    description: &str,
    possible_tasks: &[(String, String)],
    possible_params: &[(String, (String, String))],
    possible_flags: &[(String, CliFlagSpec)],
    not_in_all: &[String],
    args: &[String],
) -> (r: CliReadResult)
    requires
        is_map_table(possible_tasks@),
        is_map_table(possible_params@),
        is_map_table(possible_flags@),
        strictly_sorted_strs(views(not_in_all@)),
    ensures
        ({
            let help = help_text(command@, description@, possible_tasks@, possible_params@, possible_flags@, views(not_in_all@));
            let asks_help = args@.len() == 0 || views(args@).contains("--help"@) || views(args@).contains("-h"@);
            let has_illegal = exists|a: Seq<char>| #[trigger] views(args@).contains(a)
                && !is_legal_arg(possible_tasks@, possible_params@, possible_flags@, a);
            &&& asks_help ==> {
                &&& r.good
                &&& r.tasks@.len() == 0 && r.params@.len() == 0 && r.flags@.len() == 0
                &&& views(r.messages@) == if args@.len() == 0 {
                    seq![help, "No task specified"@]
                } else {
                    seq![help]
                }
            }
            &&& !asks_help && has_illegal ==> {
                &&& !r.good
                &&& r.tasks@.len() == 0 && r.params@.len() == 0 && r.flags@.len() == 0
                &&& exists|ill: Seq<Seq<char>>| {
                    &&& strictly_sorted_strs(ill)
                    &&& (forall|x: Seq<char>| #[trigger] ill.contains(x) <==> views(args@).contains(x)
                        && !is_legal_arg(possible_tasks@, possible_params@, possible_flags@, x))
                    &&& views(r.messages@) == seq![help] + ill.map_values(|x: Seq<char>| illegal_message(x))
                }
            }
            &&& !asks_help && !has_illegal ==> {
                &&& r.good
                &&& r.messages@.len() == 0
                &&& tasks_ok(possible_tasks@, views(not_in_all@), args@, r.tasks@)
                &&& params_ok(possible_tasks@, possible_params@, possible_flags@, args@, r.params@)
                &&& flags_ok(possible_tasks@, possible_flags@, args@, r.flags@)
            }
        }),
{
    let help = build_help(command, description, possible_tasks, possible_params, possible_flags, not_in_all);
    let aset = sorted_unique_strings(copy_strs(args));
    let asks_help = args.len() == 0 || has_str(aset.as_slice(), "--help") || has_str(aset.as_slice(), "-h");
    if asks_help {
        let mut messages: Vec<String> = Vec::new();
        messages.push(help);
        if args.len() == 0 {
            messages.push(owned("No task specified"));
        }
        proof {
            if args@.len() == 0 {
                assert(views(messages@) =~= seq![help@, "No task specified"@]);
            } else {
                assert(views(messages@) =~= seq![help@]);
            }
        }
        return CliReadResult { good: true, tasks: Vec::new(), params: Vec::new(), flags: Vec::new(), messages };
    }
    // Unknown arguments.
    let mut messages: Vec<String> = Vec::new();
    messages.push(copy_string(&help));
    let ghost mut ill: Seq<Seq<char>> = seq![];
    let mut i: usize = 0;
    proof {
        assert(views(messages@) =~= seq![help@] + ill.map_values(|x: Seq<char>| illegal_message(x)));
    }
    while i < aset.len()
        invariant
            i <= aset@.len(),
            strictly_sorted_strs(views(aset@)),
            strictly_sorted_strs(ill),
            forall|x: Seq<char>| #[trigger] ill.contains(x) <==> (views(aset@).take(i as int).contains(x)
                && !is_legal_arg(possible_tasks@, possible_params@, possible_flags@, x)),
            views(messages@) == seq![help@] + ill.map_values(|x: Seq<char>| illegal_message(x)),
        decreases aset.len() - i,
    {
        let a = aset[i].as_str();
        let ghost prefix = views(aset@).take(i as int);
        proof {
            assert(views(aset@).take(i + 1) =~= prefix.push(a@));
        }
        if !is_legal_exec(possible_tasks, possible_params, possible_flags, a) {
            let mut m = owned("Illegal argument `");
            push_str(&mut m, a);
            push_str(&mut m, "`");
            let ghost ill0 = ill;
            let ghost msgs0 = views(messages@);
            messages.push(m);
            proof {
                ill = ill.push(a@);
                assert forall|p: int, q: int| 0 <= p < q < ill.len() implies str_lt(ill[p], ill[q]) by {
                    if q == ill.len() - 1 && p < q {
                        assert(ill0.contains(ill[p]));
                        assert(prefix.contains(ill[p]));
                        let j = choose|j: int| 0 <= j < prefix.len() && prefix[j] == ill[p];
                        assert(views(aset@)[j] == ill[p]);
                        assert(views(aset@)[i as int] == a@);
                    } else {
                        assert(ill[p] == ill0[p] && ill[q] == ill0[q]);
                    }
                }
                assert forall|x: Seq<char>| #[trigger] ill.contains(x) <==> (views(aset@).take(i + 1).contains(x)
                    && !is_legal_arg(possible_tasks@, possible_params@, possible_flags@, x)) by {
                    if ill.contains(x) && x != a@ {
                        let j = choose|j: int| 0 <= j < ill.len() && ill[j] == x;
                        assert(ill0.contains(x));
                    }
                    if views(aset@).take(i + 1).contains(x) && x != a@ {
                        let t1 = views(aset@).take(i + 1);
                        let j = choose|j: int| 0 <= j < t1.len() && t1[j] == x;
                        assert(prefix.contains(x));
                    }
                    if ill0.contains(x) {
                        let j = choose|j: int| 0 <= j < ill0.len() && ill0[j] == x;
                        assert(ill[j] == x);
                    }
                    if x == a@ {
                        assert(ill[ill.len() - 1] == x);
                        assert(views(aset@).take(i + 1)[i as int] == x);
                    }
                }
                assert(views(messages@) =~= msgs0.push(illegal_message(a@)));
                assert(ill.map_values(|x: Seq<char>| illegal_message(x)) =~= ill0.map_values(|x: Seq<char>| illegal_message(x)).push(illegal_message(a@)));
            }
        } else {
            proof {
                assert forall|x: Seq<char>| #[trigger] ill.contains(x) <==> (views(aset@).take(i + 1).contains(x)
                    && !is_legal_arg(possible_tasks@, possible_params@, possible_flags@, x)) by {
                    if views(aset@).take(i + 1).contains(x) && x != a@ {
                        let t1 = views(aset@).take(i + 1);
                        let j = choose|j: int| 0 <= j < t1.len() && t1[j] == x;
                        assert(prefix.contains(x));
                    }
                    if prefix.contains(x) {
                        let j = choose|j: int| 0 <= j < prefix.len() && prefix[j] == x;
                        assert(views(aset@).take(i + 1)[j] == x);
                    }
                }
            }
        }
        i += 1;
    }
    proof {
        assert(views(aset@).take(aset@.len() as int) =~= views(aset@));
    }
    if messages.len() > 1 {
        proof {
            assert(ill.len() > 0);
            assert(ill.contains(ill[0]));
        }
        return CliReadResult { good: false, tasks: Vec::new(), params: Vec::new(), flags: Vec::new(), messages };
    }
    proof {
        assert(ill.len() == 0);
        assert forall|a: Seq<char>| #[trigger] views(args@).contains(a) implies is_legal_arg(possible_tasks@, possible_params@, possible_flags@, a) by {
            if !is_legal_arg(possible_tasks@, possible_params@, possible_flags@, a) {
                assert(views(aset@).contains(a));
                assert(ill.contains(a));
            }
        }
    }
    let tasks = read_tasks(possible_tasks, not_in_all, args, &aset);
    let params = read_params(possible_tasks, possible_params, possible_flags, args, &aset);
    let flags = read_flags(possible_tasks, possible_flags, args, &aset);
    CliReadResult { good: true, tasks, params, flags, messages: Vec::new() }
}

/// Pushing the next element of a strictly ascending list onto a selection of the
/// elements before it keeps the selection strictly ascending.
proof fn lemma_sorted_push(src: Seq<Seq<char>>, i: int, out: Seq<Seq<char>>)
    requires
        strictly_sorted_strs(src),
        0 <= i < src.len(),
        strictly_sorted_strs(out),
        forall|x: Seq<char>| #[trigger] out.contains(x) ==> src.take(i).contains(x),
    ensures
        strictly_sorted_strs(out.push(src[i])),
        forall|x: Seq<char>| #[trigger] out.push(src[i]).contains(x) ==> src.take(i + 1).contains(x),
{
    let o = out.push(src[i]);
    assert forall|p: int, q: int| 0 <= p < q < o.len() implies str_lt(o[p], o[q]) by {
        if q == o.len() - 1 {
            assert(out.contains(o[p]));
            let j = choose|j: int| 0 <= j < i && src.take(i)[j] == o[p];
            assert(src[j] == o[p]);
        } else {
            assert(o[p] == out[p] && o[q] == out[q]);
        }
    }
    assert forall|x: Seq<char>| #[trigger] o.contains(x) implies src.take(i + 1).contains(x) by {
        let j = choose|j: int| 0 <= j < o.len() && o[j] == x;
        if j < out.len() {
            assert(out.contains(x));
            let k = choose|k: int| 0 <= k < i && src.take(i)[k] == x;
            assert(src.take(i + 1)[k] == x);
        } else {
            assert(src.take(i + 1)[i] == x);
        }
    }
}

/// The keys of a table with one more pair.
proof fn lemma_keys_push<V>(t: Seq<(String, V)>, p: (String, V))
    ensures
        keys_of(t.push(p)) == keys_of(t).push(p.0@),
{
    assert(keys_of(t.push(p)) =~= keys_of(t).push(p.0@));
}

/// A flag has a default exactly when some flag of that name has switches.
proof fn lemma_flag_default(flags: Seq<(String, CliFlagSpec)>, k: Seq<char>)
    ensures
        flag_default(flags, k) is Some <==> exists|j: int|
            0 <= j < flags.len() && (#[trigger] flags[j]).0@ == k && (flags[j].1.n_values == 2 || flags[j].1.n_values == 3),
    decreases flags.len(),
{
    if flags.len() > 0 {
        lemma_flag_default(flags.drop_last(), k);
        if exists|j: int| 0 <= j < flags.len() && (#[trigger] flags[j]).0@ == k && (flags[j].1.n_values == 2 || flags[j].1.n_values == 3) {
            let j = choose|j: int| 0 <= j < flags.len() && (#[trigger] flags[j]).0@ == k && (flags[j].1.n_values == 2 || flags[j].1.n_values == 3);
            if j < flags.len() - 1 {
                assert(flags.drop_last()[j] == flags[j]);
            }
        }
        if exists|j: int| 0 <= j < flags.len() - 1 && (#[trigger] flags.drop_last()[j]).0@ == k && (flags.drop_last()[j].1.n_values == 2 || flags.drop_last()[j].1.n_values == 3) {
            let j = choose|j: int| 0 <= j < flags.len() - 1 && (#[trigger] flags.drop_last()[j]).0@ == k && (flags.drop_last()[j].1.n_values == 2 || flags.drop_last()[j].1.n_values == 3);
            assert(flags[j] == flags.drop_last()[j]);
        }
    }
}

/// A parameter has a default exactly when it is one of the parameters.
proof fn lemma_param_default(params: Seq<(String, (String, String))>, k: Seq<char>)
    ensures
        param_default(params, k) is Some <==> keys_of(params).contains(k),
    decreases params.len(),
{
    if params.len() > 0 {
        lemma_param_default(params.drop_last(), k);
        assert(keys_of(params.drop_last()) =~= keys_of(params).drop_last());
        assert(keys_of(params)[params.len() - 1] == params.last().0@);
        if keys_of(params).contains(k) && params.last().0@ != k {
            let j = choose|j: int| 0 <= j < keys_of(params).len() && keys_of(params)[j] == k;
            assert(keys_of(params).drop_last()[j] == k);
        }
        if keys_of(params.drop_last()).contains(k) {
            let j = choose|j: int| 0 <= j < keys_of(params.drop_last()).len() && keys_of(params.drop_last())[j] == k;
            assert(keys_of(params)[j] == k);
        }
    }
}

fn read_tasks(tasks: &[(String, String)], not_in_all: &[String], args: &[String], aset: &Vec<String>) -> (r: Vec<(String, bool)>)
    requires
        is_map_table(tasks@),
        strictly_sorted_strs(views(aset@)),
        forall|x: Seq<char>| #[trigger] views(aset@).contains(x) <==> views(args@).contains(x),
    ensures
        tasks_ok(tasks@, views(not_in_all@), args@, r@),
{
    let mut out: Vec<(String, bool)> = Vec::new();
    let all = has_str(aset.as_slice(), "all");
    let ghost src: Seq<Seq<char>> = if all { keys_of(tasks@) } else { views(aset@) };
    let n = if all { tasks.len() } else { aset.len() };
    proof {
        assert(keys_of(out@) =~= Seq::<Seq<char>>::empty());
    }
    let mut i: usize = 0;
    while i < n
        invariant
            i <= n,
            n == src.len(),
            all == views(aset@).contains("all"@),
            src == if all { keys_of(tasks@) } else { views(aset@) },
            strictly_sorted_strs(src),
            strictly_sorted_strs(keys_of(out@)),
            forall|q: int| 0 <= q < out@.len() ==> (#[trigger] out@[q]).1,
            forall|x: Seq<char>| #[trigger] keys_of(out@).contains(x) ==> src.take(i as int).contains(x),
            forall|x: Seq<char>| #[trigger] keys_of(out@).contains(x) <==> (src.take(i as int).contains(x) && if all {
                x != "all"@ && !views(not_in_all@).contains(x)
            } else {
                keys_of(tasks@).contains(x) && x != "all"@
            }),
        decreases n - i,
    {
        let k: &str = if all { tasks[i].0.as_str() } else { aset[i].as_str() };
        proof {
            assert(src[i as int] == k@);
            assert(src.take(i + 1) =~= src.take(i as int).push(k@));
        }
        let keep = if all {
            !str_eq(k, "all") && !has_str(not_in_all, k)
        } else {
            is_task_arg_exec(tasks, k) && !str_eq(k, "all")
        };
        let ghost out0 = out@;
        if keep {
            proof {
                lemma_sorted_push(src, i as int, keys_of(out0));
            }
            let pair = (owned(k), true);
            out.push(pair);
            proof {
                lemma_keys_push(out0, pair);
                assert(keys_of(out@) == keys_of(out0).push(k@));
            }
        }
        proof {
            assert forall|x: Seq<char>| #[trigger] keys_of(out@).contains(x) <==> (src.take(i + 1).contains(x) && if all {
                x != "all"@ && !views(not_in_all@).contains(x)
            } else {
                keys_of(tasks@).contains(x) && x != "all"@
            }) by {
                if src.take(i + 1).contains(x) && x != k@ {
                    let t1 = src.take(i + 1);
                    let j = choose|j: int| 0 <= j < t1.len() && t1[j] == x;
                    assert(src.take(i as int)[j] == x);
                }
                if src.take(i as int).contains(x) {
                    let j = choose|j: int| 0 <= j < i && src.take(i as int)[j] == x;
                    assert(src.take(i + 1)[j] == x);
                }
                if keys_of(out@).contains(x) && keep && x != k@ {
                    let j = choose|j: int| 0 <= j < keys_of(out@).len() && keys_of(out@)[j] == x;
                    assert(keys_of(out0)[j] == x);
                }
                if keys_of(out0).contains(x) && keep {
                    let j = choose|j: int| 0 <= j < keys_of(out0).len() && keys_of(out0)[j] == x;
                    assert(keys_of(out@)[j] == x);
                }
                if keep && x == k@ {
                    assert(keys_of(out@)[keys_of(out@).len() - 1] == x);
                }
                if !keep && x == k@ && keys_of(out@).contains(x) {
                    assert(src.take(i as int).contains(x));
                    let j = choose|j: int| 0 <= j < i && src.take(i as int)[j] == x;
                    assert(src[j] == src[i as int]);
                    crate::strs::lemma_str_lt_irrefl(x);
                }
            }
            assert forall|x: Seq<char>| #[trigger] keys_of(out@).contains(x) implies src.take(i + 1).contains(x) by {}
        }
        i += 1;
    }
    proof {
        assert(src.take(n as int) =~= src);
        assert forall|x: Seq<char>| #[trigger] keys_of(out@).contains(x) <==> (if views(args@).contains("all"@) {
            keys_of(tasks@).contains(x) && x != "all"@ && !views(not_in_all@).contains(x)
        } else {
            views(args@).contains(x) && keys_of(tasks@).contains(x) && x != "all"@
        }) by {}
    }
    out
}

fn read_flags(tasks: &[(String, String)], flags: &[(String, CliFlagSpec)], args: &[String], aset: &Vec<String>) -> (r: Vec<
    (String, CliFlagValue),
>)
    requires
        strictly_sorted_strs(views(aset@)),
        forall|x: Seq<char>| #[trigger] views(aset@).contains(x) <==> views(args@).contains(x),
    ensures
        flags_ok(tasks@, flags@, args@, r@),
{
    // The flags to report: those with a given switch, and those with a default.
    let mut cands: Vec<String> = Vec::new();
    let mut i: usize = 0;
    while i < aset.len()
        invariant
            i <= aset@.len(),
            forall|x: Seq<char>| #[trigger] views(cands@).contains(x) <==> exists|j: int|
                0 <= j < i && !is_task_arg(tasks@, #[trigger] aset@[j]@) && switch_value(flags@, aset@[j]@) is Some
                    && unsigned(aset@[j]@) == x,
        decreases aset.len() - i,
    {
        let a = aset[i].as_str();
        if !is_task_arg_exec(tasks, a) && switch_value_exec(flags, a).is_some() {
            let u = unsigned_exec(a);
            let ghost c0 = views(cands@);
            cands.push(u);
            proof {
                assert(views(cands@) =~= c0.push(unsigned(a@)));
                assert forall|x: Seq<char>| #[trigger] views(cands@).contains(x) <==> exists|j: int|
                    0 <= j < i + 1 && !is_task_arg(tasks@, #[trigger] aset@[j]@) && switch_value(flags@, aset@[j]@) is Some
                        && unsigned(aset@[j]@) == x by {
                    if views(cands@).contains(x) && x != unsigned(a@) {
                        let q = choose|q: int| 0 <= q < views(cands@).len() && views(cands@)[q] == x;
                        assert(c0[q] == x);
                    }
                    if c0.contains(x) {
                        let q = choose|q: int| 0 <= q < c0.len() && c0[q] == x;
                        assert(views(cands@)[q] == x);
                    }
                    if x == unsigned(a@) {
                        assert(views(cands@)[c0.len() as int] == x);
                    }
                }
            }
        }
        i += 1;
    }
    let ghost c1 = views(cands@);
    let mut f: usize = 0;
    while f < flags.len()
        invariant
            f <= flags@.len(),
            c1 == views(cands@).take(c1.len() as int),
            c1.len() <= cands@.len(),
            forall|x: Seq<char>| #[trigger] views(cands@).contains(x) <==> (c1.contains(x) || exists|j: int|
                0 <= j < f && (#[trigger] flags@[j]).0@ == x && (flags@[j].1.n_values == 2 || flags@[j].1.n_values == 3)),
        decreases flags.len() - f,
    {
        if flags[f].1.n_values == 2 || flags[f].1.n_values == 3 {
            let ghost c0 = views(cands@);
            cands.push(copy_string(&flags[f].0));
            proof {
                assert(views(cands@) =~= c0.push(flags@[f as int].0@));
                assert(views(cands@).take(c1.len() as int) =~= c0.take(c1.len() as int));
                assert forall|x: Seq<char>| #[trigger] views(cands@).contains(x) <==> (c1.contains(x) || exists|j: int|
                    0 <= j < f + 1 && (#[trigger] flags@[j]).0@ == x && (flags@[j].1.n_values == 2 || flags@[j].1.n_values == 3)) by {
                    if views(cands@).contains(x) && x != flags@[f as int].0@ {
                        let q = choose|q: int| 0 <= q < views(cands@).len() && views(cands@)[q] == x;
                        assert(c0[q] == x);
                    }
                    if c0.contains(x) {
                        let q = choose|q: int| 0 <= q < c0.len() && c0[q] == x;
                        assert(views(cands@)[q] == x);
                    }
                    if x == flags@[f as int].0@ {
                        assert(views(cands@)[c0.len() as int] == x);
                    }
                    if exists|j: int| 0 <= j < f + 1 && (#[trigger] flags@[j]).0@ == x && (flags@[j].1.n_values == 2 || flags@[j].1.n_values == 3) {
                        let j = choose|j: int| 0 <= j < f + 1 && (#[trigger] flags@[j]).0@ == x && (flags@[j].1.n_values == 2 || flags@[j].1.n_values == 3);
                        if j == f {
                            assert(views(cands@)[c0.len() as int] == x);
                        }
                    }
                }
            }
        }
        f += 1;
    }
    let keys = sorted_unique_strings(cands);
    proof {
        assert forall|k: Seq<char>| #[trigger] views(keys@).contains(k) <==> ((exists|a: Seq<char>|
            #[trigger] is_switch_arg(tasks@, flags@, args@, a) && unsigned(a) == k) || flag_default(flags@, k) is Some) by {
            lemma_flag_default(flags@, k);
            if exists|a: Seq<char>| #[trigger] is_switch_arg(tasks@, flags@, args@, a) && unsigned(a) == k {
                let a = choose|a: Seq<char>| #[trigger] is_switch_arg(tasks@, flags@, args@, a) && unsigned(a) == k;
                assert(views(aset@).contains(a));
                let j = choose|j: int| 0 <= j < views(aset@).len() && views(aset@)[j] == a;
                assert(aset@[j]@ == a);
                assert(c1.contains(k));
            }
            if c1.contains(k) {
                let j = choose|j: int|
                    0 <= j < aset@.len() && !is_task_arg(tasks@, #[trigger] aset@[j]@) && switch_value(flags@, aset@[j]@) is Some
                        && unsigned(aset@[j]@) == k;
                assert(views(aset@)[j] == aset@[j]@);
                assert(views(aset@).contains(aset@[j]@));
                assert(is_switch_arg(tasks@, flags@, args@, aset@[j]@));
            }
        }
    }
    let mut out: Vec<(String, CliFlagValue)> = Vec::new();
    let mut q: usize = 0;
    while q < keys.len()
        invariant
            q <= keys@.len(),
            strictly_sorted_strs(views(aset@)),
            forall|x: Seq<char>| #[trigger] views(aset@).contains(x) <==> views(args@).contains(x),
            forall|k: Seq<char>| #[trigger] views(keys@).contains(k) <==> ((exists|a: Seq<char>|
                #[trigger] is_switch_arg(tasks@, flags@, args@, a) && unsigned(a) == k) || flag_default(flags@, k) is Some),
            keys_of(out@) == views(keys@).take(q as int),
            forall|p: int| 0 <= p < out@.len() ==> {
                let k = (#[trigger] out@[p]).0@;
                ||| exists|a: Seq<char>| #[trigger] deciding_switch(tasks@, flags@, args@, k, a) && switch_value(flags@, a) == Some(out@[p].1)
                ||| !(exists|a: Seq<char>| #[trigger] is_switch_arg(tasks@, flags@, args@, a) && unsigned(a) == k)
                    && flag_default(flags@, k) == Some(out@[p].1)
            },
        decreases keys.len() - q,
    {
        let k = keys[q].as_str();
        proof {
            assert(views(keys@)[q as int] == k@);
            assert(views(keys@).contains(k@));
        }
        let v: CliFlagValue = match last_switch_for(tasks, flags, aset, k) {
            Some(m) => {
                let a = aset[m].as_str();
                proof {
                    assert(views(aset@)[m as int] == a@);
                    assert(views(aset@).contains(a@));
                    assert(is_switch_arg(tasks@, flags@, args@, a@));
                    assert forall|b: Seq<char>| #[trigger] is_switch_arg(tasks@, flags@, args@, b) && unsigned(b) == k@ implies str_le(b, a@) by {
                        assert(views(aset@).contains(b));
                        let j = choose|j: int| 0 <= j < views(aset@).len() && views(aset@)[j] == b;
                        assert(aset@[j]@ == b);
                        if j > m {
                            assert(!(!is_task_arg(tasks@, aset@[j]@) && switch_value(flags@, aset@[j]@) is Some && unsigned(aset@[j]@) == k@));
                        }
                        if j < m {
                            assert(str_lt(views(aset@)[j], views(aset@)[m as int]));
                        }
                    }
                    assert(deciding_switch(tasks@, flags@, args@, k@, a@));
                }
                match switch_value_exec(flags, a) {
                    Some(v) => v,
                    None => CliFlagValue::Bool(false),
                }
            },
            None => {
                proof {
                    if exists|a: Seq<char>| #[trigger] is_switch_arg(tasks@, flags@, args@, a) && unsigned(a) == k@ {
                        let a = choose|a: Seq<char>| #[trigger] is_switch_arg(tasks@, flags@, args@, a) && unsigned(a) == k@;
                        assert(views(aset@).contains(a));
                        let j = choose|j: int| 0 <= j < views(aset@).len() && views(aset@)[j] == a;
                        assert(aset@[j]@ == a);
                    }
                }
                match flag_default_exec(flags, k) {
                    Some(v) => v,
                    None => CliFlagValue::Bool(false),
                }
            },
        };
        let ghost out0 = out@;
        let pair = (owned(k), v);
        out.push(pair);
        proof {
            lemma_keys_push(out0, pair);
            assert(views(keys@).take(q + 1) =~= views(keys@).take(q as int).push(k@));
            assert forall|p: int| 0 <= p < out@.len() implies {
                let kk = (#[trigger] out@[p]).0@;
                ||| exists|a: Seq<char>| #[trigger] deciding_switch(tasks@, flags@, args@, kk, a) && switch_value(flags@, a) == Some(out@[p].1)
                ||| !(exists|a: Seq<char>| #[trigger] is_switch_arg(tasks@, flags@, args@, a) && unsigned(a) == kk)
                    && flag_default(flags@, kk) == Some(out@[p].1)
            } by {
                if p < out0.len() {
                    assert(out@[p] == out0[p]);
                }
            }
        }
        q += 1;
    }
    proof {
        assert(views(keys@).take(keys@.len() as int) =~= views(keys@));
    }
    out
}

fn read_params(
    tasks: &[(String, String)],
    params: &[(String, (String, String))],
    flags: &[(String, CliFlagSpec)],
    args: &[String],
    aset: &Vec<String>,
) -> (r: Vec<(String, String)>)
    requires
        strictly_sorted_strs(views(aset@)),
        forall|x: Seq<char>| #[trigger] views(aset@).contains(x) <==> views(args@).contains(x),
    ensures
        params_ok(tasks@, params@, flags@, args@, r@),
{
    let mut cands: Vec<String> = Vec::new();
    let mut i: usize = 0;
    while i < aset.len()
        invariant
            i <= aset@.len(),
            forall|x: Seq<char>| #[trigger] views(cands@).contains(x) <==> exists|j: int|
                0 <= j < i && !is_task_arg(tasks@, #[trigger] aset@[j]@) && switch_value(flags@, aset@[j]@) is None
                    && arg_key(aset@[j]@) == x,
        decreases aset.len() - i,
    {
        let a = aset[i].as_str();
        if !is_task_arg_exec(tasks, a) && switch_value_exec(flags, a).is_none() {
            let u = arg_key_exec(a);
            let ghost c0 = views(cands@);
            cands.push(u);
            proof {
                assert(views(cands@) =~= c0.push(arg_key(a@)));
                assert forall|x: Seq<char>| #[trigger] views(cands@).contains(x) <==> exists|j: int|
                    0 <= j < i + 1 && !is_task_arg(tasks@, #[trigger] aset@[j]@) && switch_value(flags@, aset@[j]@) is None
                        && arg_key(aset@[j]@) == x by {
                    if views(cands@).contains(x) && x != arg_key(a@) {
                        let q = choose|q: int| 0 <= q < views(cands@).len() && views(cands@)[q] == x;
                        assert(c0[q] == x);
                    }
                    if c0.contains(x) {
                        let q = choose|q: int| 0 <= q < c0.len() && c0[q] == x;
                        assert(views(cands@)[q] == x);
                    }
                    if x == arg_key(a@) {
                        assert(views(cands@)[c0.len() as int] == x);
                    }
                }
            }
        }
        i += 1;
    }
    let ghost c1 = views(cands@);
    let mut f: usize = 0;
    while f < params.len()
        invariant
            f <= params@.len(),
            c1 == views(cands@).take(c1.len() as int),
            c1.len() <= cands@.len(),
            forall|x: Seq<char>| #[trigger] views(cands@).contains(x) <==> (c1.contains(x) || keys_of(params@).take(f as int).contains(x)),
        decreases params.len() - f,
    {
        let ghost c0 = views(cands@);
        cands.push(copy_string(&params[f].0));
        proof {
            assert(views(cands@) =~= c0.push(params@[f as int].0@));
            assert(views(cands@).take(c1.len() as int) =~= c0.take(c1.len() as int));
            assert(keys_of(params@).take(f + 1) =~= keys_of(params@).take(f as int).push(params@[f as int].0@));
            assert forall|x: Seq<char>| #[trigger] views(cands@).contains(x) <==> (c1.contains(x) || keys_of(params@).take(f + 1).contains(x)) by {
                if views(cands@).contains(x) && x != params@[f as int].0@ {
                    let q = choose|q: int| 0 <= q < views(cands@).len() && views(cands@)[q] == x;
                    assert(c0[q] == x);
                }
                if c0.contains(x) {
                    let q = choose|q: int| 0 <= q < c0.len() && c0[q] == x;
                    assert(views(cands@)[q] == x);
                }
                if x == params@[f as int].0@ {
                    assert(views(cands@)[c0.len() as int] == x);
                    assert(keys_of(params@).take(f + 1)[f as int] == x);
                }
                if keys_of(params@).take(f + 1).contains(x) && x != params@[f as int].0@ {
                    let t1 = keys_of(params@).take(f + 1);
                    let q = choose|q: int| 0 <= q < t1.len() && t1[q] == x;
                    assert(keys_of(params@).take(f as int)[q] == x);
                }
                if keys_of(params@).take(f as int).contains(x) {
                    let q = choose|q: int| 0 <= q < f && keys_of(params@).take(f as int)[q] == x;
                    assert(keys_of(params@).take(f + 1)[q] == x);
                }
            }
        }
        f += 1;
    }
    proof {
        assert(keys_of(params@).take(params@.len() as int) =~= keys_of(params@));
    }
    let keys = sorted_unique_strings(cands);
    proof {
        assert forall|k: Seq<char>| #[trigger] views(keys@).contains(k) <==> ((exists|a: Seq<char>|
            #[trigger] is_param_arg(tasks@, flags@, args@, a) && arg_key(a) == k) || param_default(params@, k) is Some) by {
            lemma_param_default(params@, k);
            if exists|a: Seq<char>| #[trigger] is_param_arg(tasks@, flags@, args@, a) && arg_key(a) == k {
                let a = choose|a: Seq<char>| #[trigger] is_param_arg(tasks@, flags@, args@, a) && arg_key(a) == k;
                assert(views(aset@).contains(a));
                let j = choose|j: int| 0 <= j < views(aset@).len() && views(aset@)[j] == a;
                assert(aset@[j]@ == a);
                assert(c1.contains(k));
            }
            if c1.contains(k) {
                let j = choose|j: int|
                    0 <= j < aset@.len() && !is_task_arg(tasks@, #[trigger] aset@[j]@) && switch_value(flags@, aset@[j]@) is None
                        && arg_key(aset@[j]@) == k;
                assert(views(aset@)[j] == aset@[j]@);
                assert(views(aset@).contains(aset@[j]@));
                assert(is_param_arg(tasks@, flags@, args@, aset@[j]@));
            }
        }
    }
    let mut out: Vec<(String, String)> = Vec::new();
    let mut q: usize = 0;
    while q < keys.len()
        invariant
            q <= keys@.len(),
            strictly_sorted_strs(views(aset@)),
            forall|x: Seq<char>| #[trigger] views(aset@).contains(x) <==> views(args@).contains(x),
            forall|k: Seq<char>| #[trigger] views(keys@).contains(k) <==> ((exists|a: Seq<char>|
                #[trigger] is_param_arg(tasks@, flags@, args@, a) && arg_key(a) == k) || param_default(params@, k) is Some),
            keys_of(out@) == views(keys@).take(q as int),
            forall|p: int| 0 <= p < out@.len() ==> {
                let k = (#[trigger] out@[p]).0@;
                ||| exists|a: Seq<char>| #[trigger] deciding_param(tasks@, flags@, args@, k, a) && out@[p].1@ == param_value_of(params@, a)
                ||| !(exists|a: Seq<char>| #[trigger] is_param_arg(tasks@, flags@, args@, a) && arg_key(a) == k)
                    && param_default(params@, k) == Some(out@[p].1@)
            },
        decreases keys.len() - q,
    {
        let k = keys[q].as_str();
        proof {
            assert(views(keys@)[q as int] == k@);
            assert(views(keys@).contains(k@));
        }
        let v: String = match last_param_for(tasks, flags, aset, k) {
            Some(m) => {
                let a = aset[m].as_str();
                proof {
                    assert(views(aset@)[m as int] == a@);
                    assert(views(aset@).contains(a@));
                    assert(is_param_arg(tasks@, flags@, args@, a@));
                    assert forall|b: Seq<char>| #[trigger] is_param_arg(tasks@, flags@, args@, b) && arg_key(b) == k@ implies str_le(b, a@) by {
                        assert(views(aset@).contains(b));
                        let j = choose|j: int| 0 <= j < views(aset@).len() && views(aset@)[j] == b;
                        assert(aset@[j]@ == b);
                        if j > m {
                            assert(!(!is_task_arg(tasks@, aset@[j]@) && switch_value(flags@, aset@[j]@) is None && arg_key(aset@[j]@) == k@));
                        }
                        if j < m {
                            assert(str_lt(views(aset@)[j], views(aset@)[m as int]));
                        }
                    }
                    assert(deciding_param(tasks@, flags@, args@, k@, a@));
                }
                let value = arg_value_exec(a);
                if to_chars(value.as_str()).len() == 0 {
                    let key = arg_key_exec(a);
                    match param_default_exec(params, key.as_str()) {
                        Some(d) => d,
                        None => {
                            let e = String::new();
                            proof {
                                assert(e@ =~= Seq::<char>::empty());
                            }
                            e
                        },
                    }
                } else {
                    value
                }
            },
            None => {
                proof {
                    if exists|a: Seq<char>| #[trigger] is_param_arg(tasks@, flags@, args@, a) && arg_key(a) == k@ {
                        let a = choose|a: Seq<char>| #[trigger] is_param_arg(tasks@, flags@, args@, a) && arg_key(a) == k@;
                        assert(views(aset@).contains(a));
                        let j = choose|j: int| 0 <= j < views(aset@).len() && views(aset@)[j] == a;
                        assert(aset@[j]@ == a);
                    }
                }
                match param_default_exec(params, k) {
                    Some(d) => d,
                    None => String::new(),
                }
            },
        };
        let ghost out0 = out@;
        let pair = (owned(k), v);
        out.push(pair);
        proof {
            lemma_keys_push(out0, pair);
            assert(views(keys@).take(q + 1) =~= views(keys@).take(q as int).push(k@));
            assert forall|p: int| 0 <= p < out@.len() implies {
                let kk = (#[trigger] out@[p]).0@;
                ||| exists|a: Seq<char>| #[trigger] deciding_param(tasks@, flags@, args@, kk, a) && out@[p].1@ == param_value_of(params@, a)
                ||| !(exists|a: Seq<char>| #[trigger] is_param_arg(tasks@, flags@, args@, a) && arg_key(a) == kk)
                    && param_default(params@, kk) == Some(out@[p].1@)
            } by {
                if p < out0.len() {
                    assert(out@[p] == out0[p]);
                }
            }
        }
        q += 1;
    }
    proof {
        assert(views(keys@).take(keys@.len() as int) =~= views(keys@));
    }
    out
}

/// Reads command-line arguments (camel-case name).
#[allow(non_snake_case)]
pub fn readArgs(
    command: &str,
    description: &str,
    possible_tasks: &[(String, String)],
    possible_params: &[(String, (String, String))],
    possible_flags: &[(String, CliFlagSpec)],
    not_in_all: &[String],
    args: &[String],
) -> (r: CliReadResult)
    requires
        is_map_table(possible_tasks@),
        is_map_table(possible_params@),
        is_map_table(possible_flags@),
        strictly_sorted_strs(views(not_in_all@)),
    ensures
        ({
            let help = help_text(command@, description@, possible_tasks@, possible_params@, possible_flags@, views(not_in_all@));
            let asks_help = args@.len() == 0 || views(args@).contains("--help"@) || views(args@).contains("-h"@);
            let has_illegal = exists|a: Seq<char>| #[trigger] views(args@).contains(a)
                && !is_legal_arg(possible_tasks@, possible_params@, possible_flags@, a);
            &&& asks_help ==> {
                &&& r.good
                &&& r.tasks@.len() == 0 && r.params@.len() == 0 && r.flags@.len() == 0
                &&& views(r.messages@) == if args@.len() == 0 {
                    seq![help, "No task specified"@]
                } else {
                    seq![help]
                }
            }
            &&& !asks_help && has_illegal ==> {
                &&& !r.good
                &&& r.tasks@.len() == 0 && r.params@.len() == 0 && r.flags@.len() == 0
                &&& exists|ill: Seq<Seq<char>>| {
                    &&& strictly_sorted_strs(ill)
                    &&& (forall|x: Seq<char>| #[trigger] ill.contains(x) <==> views(args@).contains(x)
                        && !is_legal_arg(possible_tasks@, possible_params@, possible_flags@, x))
                    &&& views(r.messages@) == seq![help] + ill.map_values(|x: Seq<char>| illegal_message(x))
                }
            }
            &&& !asks_help && !has_illegal ==> {
                &&& r.good
                &&& r.messages@.len() == 0
                &&& tasks_ok(possible_tasks@, views(not_in_all@), args@, r.tasks@)
                &&& params_ok(possible_tasks@, possible_params@, possible_flags@, args@, r.params@)
                &&& flags_ok(possible_tasks@, possible_flags@, args@, r.flags@)
            }
        }),
{
    read_args(command, description, possible_tasks, possible_params, possible_flags, not_in_all, args)
}

} // verus!
