//! The plugin tables of the scripting layer: key bindings per mode, user
//! commands and hooks. A handler is stored by the number under which the
//! script engine keeps it; the engine itself runs outside the library.

use vstd::prelude::*;
use crate::editor::Mode;
use crate::text::{chars_of, string_push};

verus! {

/// A name as the scripts write it: a symbol such as `'normal`, a string such
/// as `"j"`, an integer, a boolean, a list of names, or a function by its
/// parameters and body. `Other` stands for the remaining values (fractional
/// and complex numbers, built-in functions), which no name equals.
#[derive(Debug)]
pub enum Name {
    Symbol(String),
    Str(String),
    Int(i64),
    Bool(bool),
    List(Vec<Name>),
    Lambda(Vec<String>, Box<Name>),
    Other,
}

/// Two names are the same: same kind and same text or value; lists element
/// by element; functions by their parameters and body.
pub open spec fn same_name(a: Name, b: Name) -> bool
    decreases a,
{
    match a {
        Name::Symbol(x) => b matches Name::Symbol(y) && x@ == y@,
        Name::Str(x) => b matches Name::Str(y) && x@ == y@,
        Name::Int(x) => b matches Name::Int(y) && x == y,
        Name::Bool(x) => b matches Name::Bool(y) && x == y,
        Name::List(xs) => match b {
            Name::List(ys) => xs@.len() == ys@.len() && forall|i: int|
                0 <= i < xs@.len() ==> same_name(#[trigger] xs@[i], ys@[i]),
            _ => false,
        },
        Name::Lambda(pa, ba) => match b {
            Name::Lambda(pb, bb) => same_params(pa@, pb@) && same_name(*ba, *bb),
            _ => false,
        },
        Name::Other => false,
    }
}

/// A name that holds no `Other`, in its lists or function bodies.
pub open spec fn comparable(n: Name) -> bool
    decreases n,
{
    match n {
        Name::List(xs) => forall|i: int| 0 <= i < xs@.len() ==> comparable(#[trigger] xs@[i]),
        Name::Lambda(_, b) => comparable(*b),
        Name::Other => false,
        _ => true,
    }
}

/// Two parameter lists are the same, name by name.
pub open spec fn same_params(pa: Seq<String>, pb: Seq<String>) -> bool {
    pa.len() == pb.len() && forall|i: int| 0 <= i < pa.len() ==> (#[trigger] pa[i])@ == pb[i]@
}

/// Whether two parameter lists are the same.
fn params_equal(pa: &Vec<String>, pb: &Vec<String>) -> (r: bool)
    ensures
        r == same_params(pa@, pb@),
{
    if pa.len() != pb.len() {
        return false;
    }
    let mut i: usize = 0;
    while i < pa.len()
        invariant
            pa.len() == pb.len(),
            i <= pa.len(),
            forall|j: int| 0 <= j < i ==> (#[trigger] pa@[j])@ == pb@[j]@,
        decreases pa.len() - i,
    {
        if pa[i] != pb[i] {
            return false;
        }
        i = i + 1;
    }
    true
}

/// Whether two names are the same.
pub fn names_equal(a: &Name, b: &Name) -> (r: bool)
    ensures
        r == same_name(*a, *b),
    decreases a,
{
    match (a, b) {
        (Name::Symbol(x), Name::Symbol(y)) => *x == *y,
        (Name::Str(x), Name::Str(y)) => *x == *y,
        (Name::Int(x), Name::Int(y)) => *x == *y,
        (Name::Bool(x), Name::Bool(y)) => *x == *y,
        (Name::List(xs), Name::List(ys)) => {
            if xs.len() != ys.len() {
                return false;
            }
            let mut i: usize = 0;
            while i < xs.len()
                invariant
                    *a == Name::List(*xs),
                    *b == Name::List(*ys),
                    xs.len() == ys.len(),
                    i <= xs.len(),
                    forall|j: int| 0 <= j < i ==> same_name(#[trigger] xs@[j], ys@[j]),
                decreases xs.len() - i,
            {
                proof {
                    assert(decreases_to!(*a => (*a)->List_0));
                    assert((*a)->List_0 == *xs);
                    assert(decreases_to!(*xs => xs@));
                    assert(decreases_to!(xs@ => xs@[i as int]));
                    assert(decreases_to!(*a => xs@[i as int]));
                }
                if !names_equal(&xs[i], &ys[i]) {
                    return false;
                }
                i = i + 1;
            }
            true
        },
        (Name::Lambda(pa, ba), Name::Lambda(pb, bb)) => {
            params_equal(pa, pb) && names_equal(ba, bb)
        },
        _ => false,
    }
}

/// Whether `n` is the symbol `s`.
pub open spec fn names_symbol(n: Name, s: Seq<char>) -> bool {
    n matches Name::Symbol(x) && x@ == s
}

/// Whether `n` is the string `s`.
pub open spec fn names_string(n: Name, s: Seq<char>) -> bool {
    n matches Name::Str(x) && x@ == s
}

fn is_symbol(n: &Name, s: &String) -> (r: bool)
    ensures
        r == names_symbol(*n, s@),
{
    match n {
        Name::Symbol(x) => *x == *s,
        _ => false,
    }
}

fn is_string(n: &Name, s: &String) -> (r: bool)
    ensures
        r == names_string(*n, s@),
{
    match n {
        Name::Str(x) => *x == *s,
        _ => false,
    }
}

/// A key binding: in `mode`, `key` runs `handler`.
pub struct KeyBinding {
    pub mode: Name,
    pub key: Name,
    pub handler: u64,
}

/// A user command: `name` runs `handler` with the command line.
pub struct CommandBinding {
    pub name: Name,
    pub handler: u64,
}

/// A hook: the handlers to run, in order, when `name` is triggered.
pub struct Hook {
    pub name: Name,
    pub handlers: Vec<u64>,
}

/// All the plugin tables, each in the order of definition.
pub struct Plugins {
    pub keymaps: Vec<KeyBinding>,
    pub commands: Vec<CommandBinding>,
    pub hooks: Vec<Hook>,
}

/// The mathematical form of the plugin tables.
pub struct PluginsView {
    pub keymaps: Seq<(Name, Name, u64)>,
    pub commands: Seq<(Name, u64)>,
    pub hooks: Seq<(Name, Seq<u64>)>,
}

impl View for Plugins {
    type V = PluginsView;

    open spec fn view(&self) -> PluginsView {
        PluginsView {
            keymaps: self.keymaps@.map_values(|b: KeyBinding| (b.mode, b.key, b.handler)),
            commands: self.commands@.map_values(|b: CommandBinding| (b.name, b.handler)),
            hooks: self.hooks@.map_values(|h: Hook| (h.name, h.handlers@)),
        }
    }
}

/// The name of a mode as the key bindings write it.
pub open spec fn mode_name(m: Mode) -> Seq<char> {
    match m {
        Mode::Normal => "normal"@,
        Mode::Insert => "insert"@,
        Mode::Command => "command"@,
    }
}

/// The binding is for `key` in the mode named `mode`.
pub open spec fn binds_key(b: (Name, Name, u64), mode: Seq<char>, key: char) -> bool {
    names_symbol(b.0, mode) && names_string(b.1, seq![key])
}

/// The handler of the newest binding for `key` in the mode named `mode`: a
/// later binding of a key replaces an earlier one.
pub open spec fn find_key(keymaps: Seq<(Name, Name, u64)>, mode: Seq<char>, key: char) -> Option<u64>
    decreases keymaps.len(),
{
    if keymaps.len() == 0 {
        None
    } else if binds_key(keymaps.last(), mode, key) {
        Some(keymaps.last().2)
    } else {
        find_key(keymaps.drop_last(), mode, key)
    }
}

/// The handler of the first command defined under the name `cmd`.
pub open spec fn find_command(commands: Seq<(Name, u64)>, cmd: Seq<char>) -> Option<u64>
    decreases commands.len(),
{
    if commands.len() == 0 {
        None
    } else if names_string(commands[0].0, cmd) {
        Some(commands[0].1)
    } else {
        find_command(commands.drop_first(), cmd)
    }
}

/// The handlers of every hook entry named `name`, entry after entry.
pub open spec fn hook_handlers_of(hooks: Seq<(Name, Seq<u64>)>, name: Name) -> Seq<u64>
    decreases hooks.len(),
{
    if hooks.len() == 0 {
        Seq::empty()
    } else {
        let rest = hook_handlers_of(hooks.drop_last(), name);
        if same_name(hooks.last().0, name) {
            rest + hooks.last().1
        } else {
            rest
        }
    }
}

/// Adding `handler` to the hook `name`: it is appended to every entry of
/// that name; without one, a new entry holds it.
pub open spec fn hooks_after_add(hooks: Seq<(Name, Seq<u64>)>, name: Name, handler: u64) -> Seq<
    (Name, Seq<u64>),
> {
    if exists|i: int| 0 <= i < hooks.len() && same_name(#[trigger] hooks[i].0, name) {
        Seq::new(
            hooks.len(),
            |i: int|
                if same_name(hooks[i].0, name) {
                    (hooks[i].0, hooks[i].1.push(handler))
                } else {
                    hooks[i]
                },
        )
    } else {
        hooks.push((name, seq![handler]))
    }
}

/// Removing the hook `name`: every entry of that name goes; the others stay
/// in order.
pub open spec fn hooks_after_remove(hooks: Seq<(Name, Seq<u64>)>, name: Name) -> Seq<
    (Name, Seq<u64>),
>
    decreases hooks.len(),
{
    if hooks.len() == 0 {
        hooks
    } else {
        let rest = hooks_after_remove(hooks.drop_last(), name);
        if same_name(hooks.last().0, name) {
            rest
        } else {
            rest.push(hooks.last())
        }
    }
}

/// The built-in functions that scripts call to extend the editor.
#[derive(Clone, Copy, Debug)]
pub enum Builtin {
    DefineKey,
    DefineCommand,
    AddHook,
    RemoveHook,
    RunHooks,
    Load,
}

/// The number of arguments a built-in accepts.
pub open spec fn arity_ok(b: Builtin, n: int) -> bool {
    match b {
        Builtin::DefineKey => n == 3,
        Builtin::DefineCommand => n == 2,
        Builtin::AddHook => n == 2,
        Builtin::RemoveHook => 1 <= n <= 2,
        Builtin::RunHooks => n == 1,
        Builtin::Load => n == 1,
    }
}

/// The message for a call of a built-in with the wrong number of arguments.
pub open spec fn usage_message(b: Builtin) -> Seq<char> {
    match b {
        Builtin::DefineKey => "define-key: expected (define-key mode key-str fn)"@,
        Builtin::DefineCommand => "define-command: expected (define-command name fn)"@,
        Builtin::AddHook => "add-hook: expected (add-hook hook-name fn)"@,
        Builtin::RemoveHook => "remove-hook: expected (remove-hook hook-name)"@,
        Builtin::RunHooks => "run-hooks: expected (run-hooks hook-name)"@,
        Builtin::Load => "spica-load: expected (spica-load path)"@,
    }
}

/// Checks the number of arguments `n` of a call of `b`: the usage message
/// when it is wrong.
pub fn check_arity(b: Builtin, n: usize) -> (r: Result<(), String>)
    ensures
        r is Ok <==> arity_ok(b, n as int),
        r matches Err(m) ==> m@ == usage_message(b),
{
    match b {
        Builtin::DefineKey => if n != 3 {
            return Err("define-key: expected (define-key mode key-str fn)".to_owned());
        },
        Builtin::DefineCommand => if n != 2 {
            return Err("define-command: expected (define-command name fn)".to_owned());
        },
        Builtin::AddHook => if n != 2 {
            return Err("add-hook: expected (add-hook hook-name fn)".to_owned());
        },
        Builtin::RemoveHook => if n < 1 || n > 2 {
            return Err("remove-hook: expected (remove-hook hook-name)".to_owned());
        },
        Builtin::RunHooks => if n != 1 {
            return Err("run-hooks: expected (run-hooks hook-name)".to_owned());
        },
        Builtin::Load => if n != 1 {
            return Err("spica-load: expected (spica-load path)".to_owned());
        },
    }
    Ok(())
}

/// The name of a mode as the key bindings write it.
pub fn mode_name_of(m: Mode) -> (s: String)
    ensures
        s@ == mode_name(m),
{
    match m {
        Mode::Normal => "normal".to_owned(),
        Mode::Insert => "insert".to_owned(),
        Mode::Command => "command".to_owned(),
    }
}

/// A path with a leading `~/` replaced by the home directory, when one is
/// known.
pub open spec fn expanded(path: Seq<char>, home: Option<Seq<char>>) -> Seq<char> {
    if path.len() >= 2 && path[0] == '~' && path[1] == '/' && home is Some {
        home.unwrap() + seq!['/'] + path.skip(2)
    } else {
        path
    }
}

/// The view of a home directory that may be unknown.
pub open spec fn home_view(home: Option<&str>) -> Option<Seq<char>> {
    match home {
        Some(h) => Some(h@),
        None => None,
    }
}

/// `path` with a leading `~/` replaced by `home`, when it is known.
pub fn expand_home(path: &str, home: Option<&str>) -> (r: String)
    ensures
        r@ == expanded(path@, home_view(home)),
{
    let cs = chars_of(path);
    if cs.len() >= 2 && cs[0] == '~' && cs[1] == '/' {
        if let Some(h) = home {
            let mut out = h.to_owned();
            string_push(&mut out, '/');
            let mut i: usize = 2;
            while i < cs.len()
                invariant
                    2 <= i <= cs.len(),
                    cs@ == path@,
                    out@ == h@ + seq!['/'] + cs@.subrange(2, i as int),
                decreases cs.len() - i,
            {
                string_push(&mut out, cs[i]);
                assert(cs@.subrange(2, i + 1) =~= cs@.subrange(2, i as int).push(cs@[i as int]));
                i = i + 1;
            }
            assert(cs@.subrange(2, cs.len() as int) =~= path@.skip(2));
            return out;
        }
    }
    path.to_owned()
}

/// The configuration scripts looked for, in order.
pub open spec fn config_candidates() -> Seq<Seq<char>> {
    seq!["./.spicarc.pi"@, "~/.config/spica/init.pi"@, "~/.spicarc.pi"@]
}

/// The paths of the configuration scripts to load, in order, with `~/`
/// standing for `home`.
pub fn config_paths(home: Option<&str>) -> (paths: Vec<String>)
    ensures
        paths@.len() == config_candidates().len(),
        forall|i: int|
            0 <= i < paths@.len() ==> (#[trigger] paths@[i])@ == expanded(
                config_candidates()[i],
                home_view(home),
            ),
{
    let mut paths: Vec<String> = Vec::new();
    paths.push(expand_home("./.spicarc.pi", home));
    paths.push(expand_home("~/.config/spica/init.pi", home));
    paths.push(expand_home("~/.spicarc.pi", home));
    paths
}

/// A run of the handlers of a hook, one after another, each once and in
/// order. A run that stops at failure (as `run-hooks` does, which returns the
/// error) ends at the first handler that fails; the other kind (triggering a
/// hook from the editor) goes on to the end whatever fails.
pub struct HookRun {
    pub handlers: Vec<u64>,
    pub next: usize,
    pub stop_at_failure: bool,
    pub failed: bool,
}

impl HookRun {
    /// A run of `handlers` that has not started.
    pub fn new(handlers: Vec<u64>, stop_at_failure: bool) -> (r: HookRun)
        ensures
            r.handlers@ == handlers@,
            r.next == 0,
            r.stop_at_failure == stop_at_failure,
            !r.failed,
    {
        HookRun { handlers, next: 0, stop_at_failure, failed: false }
    }

    /// Whether the run is over: all handlers ran, or one failed in a run that
    /// stops at failure.
    pub open spec fn finished(&self) -> bool {
        self.next >= self.handlers.len() || (self.stop_at_failure && self.failed)
    }

    /// The next handler to run, or none once the run is over.
    pub fn next_handler(&mut self) -> (h: Option<u64>)
        requires
            old(self).next <= old(self).handlers.len(),
        ensures
            final(self).handlers@ == old(self).handlers@,
            final(self).stop_at_failure == old(self).stop_at_failure,
            final(self).failed == old(self).failed,
            final(self).next <= final(self).handlers.len(),
            old(self).finished() ==> (h is None && final(self).next == old(self).next),
            !old(self).finished() ==> (h == Some(old(self).handlers@[old(self).next as int])
                && final(self).next == old(self).next + 1),
    {
        if self.next >= self.handlers.len() || (self.stop_at_failure && self.failed) {
            None
        } else {
            let h = self.handlers[self.next];
            self.next = self.next + 1;
            Some(h)
        }
    }

    /// The outcome of the handler that just ran.
    pub fn report(&mut self, ok: bool)
        ensures
            final(self).handlers@ == old(self).handlers@,
            final(self).next == old(self).next,
            final(self).stop_at_failure == old(self).stop_at_failure,
            final(self).failed == (old(self).failed || !ok),
    {
        if !ok {
            self.failed = true;
        }
    }
}

impl Plugins {
    /// Empty tables.
    pub fn new() -> (p: Plugins)
        ensures
            p@.keymaps.len() == 0,
            p@.commands.len() == 0,
            p@.hooks.len() == 0,
    {
        Plugins { keymaps: Vec::new(), commands: Vec::new(), hooks: Vec::new() }
    }

    /// `(define-key mode key fn)`: adds a key binding, which replaces any
    /// earlier binding of that key in that mode.
    pub fn define_key(&mut self, mode: Name, key: Name, handler: u64)
        ensures
            final(self)@.keymaps == old(self)@.keymaps.push((mode, key, handler)),
            final(self)@.commands == old(self)@.commands,
            final(self)@.hooks == old(self)@.hooks,
    {
        let ghost m = mode;
        let ghost k = key;
        self.keymaps.push(KeyBinding { mode, key, handler });
        assert(self@.keymaps =~= old(self)@.keymaps.push((m, k, handler)));
    }

    /// `(define-command name fn)`: adds a user command; an earlier command of
    /// the same name stays the one that runs.
    pub fn define_command(&mut self, name: Name, handler: u64)
        ensures
            final(self)@.commands == old(self)@.commands.push((name, handler)),
            final(self)@.keymaps == old(self)@.keymaps,
            final(self)@.hooks == old(self)@.hooks,
    {
        let ghost n = name;
        self.commands.push(CommandBinding { name, handler });
        assert(self@.commands =~= old(self)@.commands.push((n, handler)));
    }

    /// The handler of the newest binding of `key` in `mode`.
    pub fn key_handler(&self, mode: Mode, key: char) -> (h: Option<u64>)
        ensures
            h == find_key(self@.keymaps, mode_name(mode), key),
    {
        let mode_text = mode_name_of(mode);
        let mut key_text = String::new();
        string_push(&mut key_text, key);
        assert(key_text@ =~= seq![key]);
        let mut i: usize = self.keymaps.len();
        assert(self@.keymaps.take(i as int) =~= self@.keymaps);
        while i > 0
            invariant
                i <= self.keymaps.len(),
                mode_text@ == mode_name(mode),
                key_text@ == seq![key],
                find_key(self@.keymaps, mode_name(mode), key) == find_key(
                    self@.keymaps.take(i as int),
                    mode_name(mode),
                    key,
                ),
            decreases i,
        {
            i = i - 1;
            let b = &self.keymaps[i];
            assert(self@.keymaps.take(i + 1).last() == self@.keymaps[i as int]);
            assert(self@.keymaps.take(i + 1).drop_last() =~= self@.keymaps.take(i as int));
            if is_symbol(&b.mode, &mode_text) && is_string(&b.key, &key_text) {
                return Some(b.handler);
            }
        }
        None
    }

    /// The handler of the first user command defined under the name `cmd`.
    pub fn command_handler(&self, cmd: &str) -> (h: Option<u64>)
        ensures
            h == find_command(self@.commands, cmd@),
    {
        let cmd_text = cmd.to_owned();
        let n = self.commands.len();
        let mut i: usize = 0;
        assert(self@.commands.skip(0) =~= self@.commands);
        while i < n
            invariant
                n == self.commands.len(),
                i <= n,
                cmd_text@ == cmd@,
                find_command(self@.commands, cmd@) == find_command(
                    self@.commands.skip(i as int),
                    cmd@,
                ),
            decreases n - i,
        {
            let b = &self.commands[i];
            assert(self@.commands.skip(i as int)[0] == self@.commands[i as int]);
            if is_string(&b.name, &cmd_text) {
                return Some(b.handler);
            }
            assert(self@.commands.skip(i as int).drop_first() =~= self@.commands.skip(i + 1));
            i = i + 1;
        }
        None
    }

    /// `(add-hook name fn)`: appends `handler` to every hook entry named
    /// `name`, or adds an entry for it when there is none.
    pub fn add_hook(&mut self, name: Name, handler: u64)
        ensures
            final(self)@.hooks == hooks_after_add(old(self)@.hooks, name, handler),
            final(self)@.keymaps == old(self)@.keymaps,
            final(self)@.commands == old(self)@.commands,
    {
        let ghost old_hooks = self@.hooks;
        let n = self.hooks.len();
        let mut found = false;
        let mut i: usize = 0;
        while i < n
            invariant
                n == self.hooks.len(),
                i <= n,
                old_hooks.len() == n,
                self@.keymaps == old(self)@.keymaps,
                self@.commands == old(self)@.commands,
                found <==> exists|j: int| 0 <= j < i && same_name(#[trigger] old_hooks[j].0, name),
                forall|j: int|
                    0 <= j < n ==> (#[trigger] self@.hooks[j]) == if j < i && same_name(
                        old_hooks[j].0,
                        name,
                    ) {
                        (old_hooks[j].0, old_hooks[j].1.push(handler))
                    } else {
                        old_hooks[j]
                    },
            decreases n - i,
        {
            let ghost before = self.hooks@;
            let ghost before_view = self@.hooks;
            assert(before_view[i as int] == old_hooks[i as int]);
            if names_equal(&self.hooks[i].name, &name) {
                self.hooks[i].handlers.push(handler);
                found = true;
                proof {
                    assert(self.hooks@ == before.update(i as int, self.hooks@[i as int]));
                    assert(self.hooks@[i as int].name == before[i as int].name);
                    assert(self@.hooks[i as int] == (old_hooks[i as int].0, old_hooks[i as int].1.push(handler)));
                    assert forall|j: int| 0 <= j < n && j != i implies self@.hooks[j] == before_view[j] by {
                        assert(self.hooks@[j] == before[j]);
                    }
                }
            } else {
                assert(!same_name(old_hooks[i as int].0, name));
            }
            proof {
                assert forall|j: int| 0 <= j < n implies (#[trigger] self@.hooks[j]) == if j < i + 1
                    && same_name(old_hooks[j].0, name) {
                    (old_hooks[j].0, old_hooks[j].1.push(handler))
                } else {
                    old_hooks[j]
                } by {
                    if j != i {
                        assert(before_view[j] == if j < i && same_name(old_hooks[j].0, name) {
                            (old_hooks[j].0, old_hooks[j].1.push(handler))
                        } else {
                            old_hooks[j]
                        });
                    }
                }
            }
            i = i + 1;
        }
        if !found {
            assert(self@.hooks =~= old_hooks);
            let ghost nm = name;
            let mut handlers: Vec<u64> = Vec::new();
            handlers.push(handler);
            assert(handlers@ =~= seq![handler]);
            self.hooks.push(Hook { name, handlers });
            proof {
                assert(self@.hooks =~= old_hooks.push((nm, seq![handler])));
            }
        } else {
            assert(self@.hooks =~= hooks_after_add(old_hooks, name, handler));
        }
    }

    /// `(remove-hook name)`: removes every hook entry named `name`.
    pub fn remove_hook(&mut self, name: &Name)
        ensures
            final(self)@.hooks == hooks_after_remove(old(self)@.hooks, *name),
            final(self)@.keymaps == old(self)@.keymaps,
            final(self)@.commands == old(self)@.commands,
    {
        let ghost orig = self@.hooks;
        let ghost mut k: int = 0;
        let mut i: usize = 0;
        assert(orig.take(0) =~= Seq::<(Name, Seq<u64>)>::empty());
        assert(orig.skip(0) =~= orig);
        while i < self.hooks.len()
            invariant
                0 <= k <= orig.len(),
                self@.hooks == hooks_after_remove(orig.take(k), *name) + orig.skip(k),
                i == hooks_after_remove(orig.take(k), *name).len(),
                self@.keymaps == old(self)@.keymaps,
                self@.commands == old(self)@.commands,
            decreases self.hooks.len() - i,
        {
            let ghost before = self@.hooks;
            let ghost done = hooks_after_remove(orig.take(k), *name);
            assert(k < orig.len());
            assert(before[i as int] == orig[k]);
            assert(orig.take(k + 1).drop_last() =~= orig.take(k));
            assert(orig.take(k + 1).last() == orig[k]);
            if names_equal(&self.hooks[i].name, name) {
                let ghost vb = self.hooks@;
                self.hooks.remove(i);
                proof {
                    assert(self.hooks@ == vb.remove(i as int));
                    assert(self@.hooks =~= before.remove(i as int));
                    assert(before.remove(i as int) =~= done + orig.skip(k + 1));
                }
            } else {
                proof {
                    assert(done.push(orig[k]) + orig.skip(k + 1) =~= done + orig.skip(k));
                }
                i = i + 1;
            }
            proof {
                k = k + 1;
            }
        }
        assert(orig.skip(k) =~= Seq::<(Name, Seq<u64>)>::empty()) by {
            assert(self@.hooks.len() == i);
        }
        assert(orig.take(k) =~= orig);
        assert(self@.hooks =~= hooks_after_remove(orig, *name));
    }

    /// The handlers to run when the hook `name` is triggered, in order.
    pub fn hook_handlers(&self, name: &Name) -> (hs: Vec<u64>)
        ensures
            hs@ == hook_handlers_of(self@.hooks, *name),
    {
        let mut out: Vec<u64> = Vec::new();
        let n = self.hooks.len();
        let mut i: usize = 0;
        assert(self@.hooks.take(0) =~= Seq::<(Name, Seq<u64>)>::empty());
        while i < n
            invariant
                n == self.hooks.len(),
                i <= n,
                out@ == hook_handlers_of(self@.hooks.take(i as int), *name),
            decreases n - i,
        {
            assert(self@.hooks.take(i + 1).drop_last() =~= self@.hooks.take(i as int));
            if names_equal(&self.hooks[i].name, name) {
                let hs = &self.hooks[i].handlers;
                let m = hs.len();
                let mut k: usize = 0;
                let ghost start = out@;
                while k < m
                    invariant
                        m == hs.len(),
                        k <= m,
                        out@ == start + hs@.take(k as int),
                    decreases m - k,
                {
                    out.push(hs[k]);
                    assert(start + hs@.take(k + 1) =~= (start + hs@.take(k as int)).push(hs@[k as int]));
                    k = k + 1;
                }
                assert(hs@.take(m as int) =~= hs@);
            }
            i = i + 1;
        }
        assert(self@.hooks.take(n as int) =~= self@.hooks);
        out
    }
}

} // verus!
