use spica::editor::Mode;
use spica::plugin::{
    check_arity, config_paths, expand_home, mode_name_of, names_equal, Builtin, HookRun, Name,
    Plugins,
};

fn sym(s: &str) -> Name {
    Name::Symbol(s.to_string())
}

fn st(s: &str) -> Name {
    Name::Str(s.to_string())
}

#[test]
fn names_compare_by_kind_and_value() {
    assert!(names_equal(&sym("a"), &sym("a")));
    assert!(!names_equal(&sym("a"), &st("a")));
    assert!(names_equal(&Name::Int(3), &Name::Int(3)));
    assert!(!names_equal(&Name::Int(3), &Name::Int(4)));
    assert!(names_equal(&Name::Bool(true), &Name::Bool(true)));
    assert!(!names_equal(&Name::Other, &Name::Other));
    let l1 = Name::List(vec![sym("a"), Name::Int(1), Name::List(vec![st("x")])]);
    let l2 = Name::List(vec![sym("a"), Name::Int(1), Name::List(vec![st("x")])]);
    let l3 = Name::List(vec![sym("a"), Name::Int(2)]);
    assert!(names_equal(&l1, &l2));
    assert!(!names_equal(&l1, &l3));
    let f1 = Name::Lambda(vec!["x".into()], Box::new(Name::List(vec![sym("+"), sym("x")])));
    let f2 = Name::Lambda(vec!["x".into()], Box::new(Name::List(vec![sym("+"), sym("x")])));
    let f3 = Name::Lambda(vec!["y".into()], Box::new(Name::List(vec![sym("+"), sym("x")])));
    assert!(names_equal(&f1, &f2));
    assert!(!names_equal(&f1, &f3));
    assert!(!names_equal(&f1, &l1));
}

#[test]
fn key_bindings_newest_one_wins() {
    let mut p = Plugins::new();
    assert_eq!(p.key_handler(Mode::Normal, 'x'), None);
    p.define_key(sym("normal"), st("x"), 7);
    assert_eq!(p.key_handler(Mode::Normal, 'x'), Some(7));
    p.define_key(sym("normal"), st("x"), 8);
    p.define_key(sym("insert"), st("y"), 9);
    assert_eq!(p.key_handler(Mode::Normal, 'x'), Some(8));
    assert_eq!(p.key_handler(Mode::Insert, 'x'), None);
    assert_eq!(p.key_handler(Mode::Insert, 'y'), Some(9));
    assert_eq!(p.key_handler(Mode::Command, 'y'), None);
    p.define_key(st("normal"), st("z"), 1);
    assert_eq!(p.key_handler(Mode::Normal, 'z'), None);
}

#[test]
fn commands_are_found_by_name() {
    let mut p = Plugins::new();
    p.define_command(st("hello"), 3);
    p.define_command(st("hello"), 4);
    p.define_command(sym("sym"), 5);
    assert_eq!(p.command_handler("hello"), Some(3));
    assert_eq!(p.command_handler("sym"), None);
    assert_eq!(p.command_handler("other"), None);
}

#[test]
fn hooks_add_run_and_remove() {
    let mut p = Plugins::new();
    p.add_hook(sym("before-save"), 1);
    p.add_hook(sym("after-save"), 2);
    p.add_hook(sym("before-save"), 3);
    assert_eq!(p.hooks.len(), 2);
    assert_eq!(p.hook_handlers(&sym("before-save")), vec![1, 3]);
    assert_eq!(p.hook_handlers(&sym("after-save")), vec![2]);
    p.remove_hook(&sym("before-save"));
    assert_eq!(p.hook_handlers(&sym("before-save")), Vec::<u64>::new());
    assert_eq!(p.hook_handlers(&sym("after-save")), vec![2]);
    assert_eq!(p.hooks.len(), 1);
}

#[test]
fn hooks_named_by_lists_are_found_again() {
    let name = || Name::List(vec![sym("on"), st("save")]);
    let mut p = Plugins::new();
    p.add_hook(name(), 1);
    p.add_hook(name(), 2);
    assert_eq!(p.hooks.len(), 1);
    assert_eq!(p.hook_handlers(&name()), vec![1, 2]);
    p.remove_hook(&name());
    assert_eq!(p.hooks.len(), 0);
    assert_eq!(p.hook_handlers(&name()), Vec::<u64>::new());
}

#[test]
fn hook_run_stops_at_first_failure() {
    let mut r = HookRun::new(vec![4, 5, 6], true);
    assert_eq!(r.next_handler(), Some(4));
    r.report(true);
    assert_eq!(r.next_handler(), Some(5));
    r.report(false);
    assert_eq!(r.next_handler(), None);
    let mut r = HookRun::new(vec![7], true);
    assert_eq!(r.next_handler(), Some(7));
    r.report(true);
    assert_eq!(r.next_handler(), None);
}

#[test]
fn triggered_hook_runs_every_handler_despite_failures() {
    let mut r = HookRun::new(vec![1, 2, 3], false);
    assert_eq!(r.next_handler(), Some(1));
    r.report(false);
    assert_eq!(r.next_handler(), Some(2));
    r.report(false);
    assert_eq!(r.next_handler(), Some(3));
    r.report(true);
    assert_eq!(r.next_handler(), None);
    assert!(r.failed);
}

#[test]
fn hooks_with_other_names_never_match() {
    let mut p = Plugins::new();
    p.add_hook(Name::Other, 1);
    p.add_hook(Name::Other, 2);
    assert_eq!(p.hooks.len(), 2);
    assert_eq!(p.hook_handlers(&Name::Other), Vec::<u64>::new());
}

#[test]
fn arity_checks() {
    assert!(check_arity(Builtin::DefineKey, 3).is_ok());
    assert_eq!(
        check_arity(Builtin::DefineKey, 2),
        Err("define-key: expected (define-key mode key-str fn)".to_string())
    );
    assert!(check_arity(Builtin::DefineCommand, 2).is_ok());
    assert_eq!(
        check_arity(Builtin::DefineCommand, 3),
        Err("define-command: expected (define-command name fn)".to_string())
    );
    assert!(check_arity(Builtin::AddHook, 2).is_ok());
    assert_eq!(
        check_arity(Builtin::AddHook, 1),
        Err("add-hook: expected (add-hook hook-name fn)".to_string())
    );
    assert!(check_arity(Builtin::RemoveHook, 1).is_ok());
    assert!(check_arity(Builtin::RemoveHook, 2).is_ok());
    assert_eq!(
        check_arity(Builtin::RemoveHook, 0),
        Err("remove-hook: expected (remove-hook hook-name)".to_string())
    );
    assert!(check_arity(Builtin::RemoveHook, 3).is_err());
    assert!(check_arity(Builtin::RunHooks, 1).is_ok());
    assert_eq!(
        check_arity(Builtin::RunHooks, 0),
        Err("run-hooks: expected (run-hooks hook-name)".to_string())
    );
    assert!(check_arity(Builtin::Load, 1).is_ok());
    assert_eq!(
        check_arity(Builtin::Load, 2),
        Err("spica-load: expected (spica-load path)".to_string())
    );
}

#[test]
fn mode_names() {
    assert_eq!(mode_name_of(Mode::Normal), "normal");
    assert_eq!(mode_name_of(Mode::Insert), "insert");
    assert_eq!(mode_name_of(Mode::Command), "command");
}

#[test]
fn home_expansion() {
    assert_eq!(expand_home("~/x/y", Some("/home/u")), "/home/u/x/y");
    assert_eq!(expand_home("~/x", None), "~/x");
    assert_eq!(expand_home("./x", Some("/home/u")), "./x");
    assert_eq!(expand_home("~x", Some("/home/u")), "~x");
    assert_eq!(expand_home("~/", Some("/h")), "/h/");
}

#[test]
fn configuration_paths_in_order() {
    assert_eq!(
        config_paths(Some("/home/u")),
        vec!["./.spicarc.pi", "/home/u/.config/spica/init.pi", "/home/u/.spicarc.pi"]
    );
    assert_eq!(
        config_paths(None),
        vec!["./.spicarc.pi", "~/.config/spica/init.pi", "~/.spicarc.pi"]
    );
}
