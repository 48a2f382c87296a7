use context_fabric::cli::{read_args, CliFlagSpec, CliFlagValue, CliReadResult};

fn s(x: &str) -> String {
    x.to_string()
}

fn read(args: &[&str]) -> CliReadResult {
    let tasks = vec![(s("check"), s("check the data")), (s("convert"), s("convert the data"))];
    let params = vec![(s("dir"), (s("where the data is"), s("~/data"))), (s("name"), (s("corpus name"), s("")))];
    let flags = vec![
        (s("force"), CliFlagSpec { description: s("overwrite"), default: CliFlagValue::Bool(false), n_values: 2 }),
        (s("verbose"), CliFlagSpec { description: s("chatter"), default: CliFlagValue::Ternary(-1), n_values: 3 }),
    ];
    let not_in_all = vec![s("convert")];
    let args: Vec<String> = args.iter().map(|a| s(a)).collect();
    read_args("tfx", "Process data.", &tasks, &params, &flags, &not_in_all, &args)
}

const HELP: &str = "tfx [tasks/params/flags] [--help]\n\nProcess data.\n\n--help: show this text and exit\n\n\
tasks:\n\tcheck:\n\t\tcheck the data\n\tconvert:\n\t\tconvert the data\nall:\n\t\tall tasks except convert\n\n\
parameters:\n\tdir=~/data:\n\t\twhere the data is\n\tname=:\n\t\tcorpus name\n\n\n\
flags:\n\tforce=false:\n\t\toverwrite\n\n\t\t-force: no force\n\t\t+force: yes force\n\tverbose=-1:\n\t\tchatter\n\n\
\t\t-verbose: no verbose\n\t\t+verbose: a bit verbose\n\t\t++verbose: more verbose";

#[test]
fn no_arguments_show_the_help() {
    let r = read(&[]);
    assert!(r.good);
    assert_eq!(r.messages, vec![s(HELP), s("No task specified")]);
    assert!(r.tasks.is_empty());
    let h = read(&["check", "-h"]);
    assert!(h.good);
    assert_eq!(h.messages, vec![s(HELP)]);
}

#[test]
fn unknown_arguments_are_reported_in_order() {
    let r = read(&["zzz", "check", "aaa=1"]);
    assert!(!r.good);
    assert_eq!(
        r.messages,
        vec![s(HELP), s("Illegal argument `aaa=1`"), s("Illegal argument `zzz`")]
    );
}

#[test]
fn tasks_params_and_flags_are_read() {
    let r = read(&["check", "name=bhsa", "dir", "++verbose", "+force", "-force"]);
    assert!(r.good);
    assert!(r.messages.is_empty());
    assert_eq!(r.tasks, vec![(s("check"), true)]);
    assert_eq!(r.params, vec![(s("dir"), s("~/data")), (s("name"), s("bhsa"))]);
    assert_eq!(
        r.flags,
        vec![(s("force"), CliFlagValue::Bool(false)), (s("verbose"), CliFlagValue::Ternary(1))]
    );
}

#[test]
fn all_stands_for_the_tasks_it_does_not_leave_out() {
    let r = read(&["all"]);
    assert!(r.good);
    assert_eq!(r.tasks, vec![(s("check"), true)]);
    assert_eq!(r.params, vec![(s("dir"), s("~/data")), (s("name"), s(""))]);
    assert_eq!(
        r.flags,
        vec![(s("force"), CliFlagValue::Bool(false)), (s("verbose"), CliFlagValue::Ternary(-1))]
    );
}
