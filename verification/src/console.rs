//! The model of the in-game command console.
//!
//! A console holds a scrollback body, a prompt prefix, pending input, and
//! a registry of named handlers: accessors (read a property), mutators
//! (write a property) and functors (run a command).  Commands arrive as
//! plain text; the console trims them, splits the leading word, and
//! dispatches on it, with `get` and `set` built in.
//!
//! Handlers are caller-supplied trait implementations, so nothing is (or
//! can be) promised about what they return; everything around them — the
//! registry, the parsing, the dispatch, and every message the console
//! itself builds — is specified exactly.

use vstd::prelude::*;
use vstd::string::*;

verus! {

/// The version string the built-in `q3.version` property reports.
pub const VERSION: &'static str = "1.0";

/// Takes a property name; returns the property's value.
pub trait Accessor {
    fn access(&self, name: &str) -> String;
}

/// Takes a property name and a new value; returns a failure message when
/// the value is rejected.
pub trait Mutator {
    fn mutate(&mut self, name: &str, val: &str) -> Option<String>;
}

/// Takes a function name and parameters; returns success and a message.
pub trait Functor {
    fn call(&mut self, name: &str, params: &str) -> (bool, String);
}

/// The whitespace the console strips from a command's ends.
pub open spec fn is_space(c: char) -> bool {
    c == ' ' || c == '\t' || c == '\n' || c == '\r'
}

/// `s` with leading whitespace removed.
pub open spec fn spec_trim_front(s: Seq<char>) -> Seq<char>
    decreases s.len(),
{
    if s.len() > 0 && is_space(s[0]) {
        spec_trim_front(s.subrange(1, s.len() as int))
    } else {
        s
    }
}

/// `s` with trailing whitespace removed.
pub open spec fn spec_trim_back(s: Seq<char>) -> Seq<char>
    decreases s.len(),
{
    if s.len() > 0 && is_space(s.last()) {
        spec_trim_back(s.drop_last())
    } else {
        s
    }
}

/// `s` with whitespace removed from both ends.
pub open spec fn spec_trim(s: Seq<char>) -> Seq<char> {
    spec_trim_back(spec_trim_front(s))
}

/// The leading word of `s`: everything before the first space.
pub open spec fn spec_token(s: Seq<char>) -> Seq<char>
    decreases s.len(),
{
    if s.len() == 0 || s[0] == ' ' {
        Seq::<char>::empty()
    } else {
        seq![s[0]].add(spec_token(s.subrange(1, s.len() as int)))
    }
}

/// What remains of `s` after the leading word and one separating space.
pub open spec fn spec_rest(s: Seq<char>) -> Seq<char>
    decreases s.len(),
{
    if s.len() == 0 {
        s
    } else if s[0] == ' ' {
        s.subrange(1, s.len() as int)
    } else {
        spec_rest(s.subrange(1, s.len() as int))
    }
}

/// The index of the newest registry entry under `name`, scanning from the
/// most recently added (a later registration shadows an earlier one).
pub open spec fn find_key<T>(s: Seq<(String, T)>, name: Seq<char>) -> Option<int>
    decreases s.len(),
{
    if s.len() == 0 {
        Option::None
    } else if s.last().0@ == name {
        Option::Some(s.len() - 1)
    } else {
        find_key(s.drop_last(), name)
    }
}

/// Unicode-exact string comparison.
fn str_eq(a: &str, b: &str) -> (r: bool)
    ensures
        r == (a@ == b@),
{
    let sa = a.to_owned();
    let sb = b.to_owned();
    sa == sb
}

/// Executable counterpart of `is_space`.
fn is_space_exec(c: char) -> (r: bool)
    ensures
        r == is_space(c),
{
    c == ' ' || c == '\t' || c == '\n' || c == '\r'
}

/// Strips whitespace from both ends of `s`.
fn trim_str(s: &str) -> (r: String)
    ensures
        r@ == spec_trim(s@),
{
    let n = s.unicode_len();
    let mut i: usize = 0;
    proof {
        assert(s@.subrange(0, n as int) =~= s@);
    }
    while i < n && is_space_exec(s.get_char(i))
        invariant
            0 <= i <= n,
            n == s@.len(),
            spec_trim_front(s@) == spec_trim_front(s@.subrange(i as int, n as int)),
        decreases n - i,
    {
        proof {
            let cur = s@.subrange(i as int, n as int);
            assert(cur[0] == s@[i as int]);
            assert(cur.subrange(1, cur.len() as int) =~= s@.subrange(i as int + 1, n as int));
        }
        i = i + 1;
    }
    proof {
        let cur = s@.subrange(i as int, n as int);
        if i < n {
            assert(cur[0] == s@[i as int]);
        }
        assert(spec_trim_front(s@) == cur);
    }
    let mut j: usize = n;
    while j > i && is_space_exec(s.get_char(j - 1))
        invariant
            0 <= i <= j <= n,
            n == s@.len(),
            spec_trim_back(s@.subrange(i as int, n as int)) == spec_trim_back(
                s@.subrange(i as int, j as int),
            ),
        decreases j,
    {
        proof {
            let cur = s@.subrange(i as int, j as int);
            assert(cur.last() == s@[j as int - 1]);
            assert(cur.drop_last() =~= s@.subrange(i as int, j as int - 1));
        }
        j = j - 1;
    }
    proof {
        let cur = s@.subrange(i as int, j as int);
        if j > i {
            assert(cur.last() == s@[j as int - 1]);
        }
        assert(spec_trim_back(s@.subrange(i as int, n as int)) == cur);
    }
    s.substring_char(i, j).to_owned()
}

/// Splits off the leading word: returns it and whatever follows the one
/// separating space.
fn split_first(s: &str) -> (r: (String, String))
    ensures
        r.0@ == spec_token(s@),
        r.1@ == spec_rest(s@),
{
    let n = s.unicode_len();
    let mut i: usize = 0;
    proof {
        assert(s@.subrange(0, n as int) =~= s@);
        assert(s@.subrange(0, 0) =~= Seq::<char>::empty());
        assert(spec_token(s@) == s@.subrange(0, 0).add(spec_token(s@.subrange(0, n as int))));
        assert(spec_rest(s@) == spec_rest(s@.subrange(0, n as int)));
    }
    while i < n && s.get_char(i) != ' '
        invariant
            0 <= i <= n,
            n == s@.len(),
            spec_token(s@) == s@.subrange(0, i as int).add(
                spec_token(s@.subrange(i as int, n as int)),
            ),
            spec_rest(s@) == spec_rest(s@.subrange(i as int, n as int)),
        decreases n - i,
    {
        proof {
            let cur = s@.subrange(i as int, n as int);
            assert(cur[0] == s@[i as int]);
            assert(cur.subrange(1, cur.len() as int) =~= s@.subrange(i as int + 1, n as int));
            assert(seq![cur[0]] =~= s@.subrange(i as int, i as int + 1));
            assert(s@.subrange(0, i as int).add(s@.subrange(i as int, i as int + 1)) =~= s@.subrange(
                0,
                i as int + 1,
            ));
            assert(s@.subrange(0, i as int).add(
                seq![cur[0]].add(spec_token(s@.subrange(i as int + 1, n as int))),
            ) =~= s@.subrange(0, i as int + 1).add(spec_token(s@.subrange(i as int + 1, n as int))));
        }
        i = i + 1;
    }
    proof {
        let cur = s@.subrange(i as int, n as int);
        if i < n {
            assert(cur[0] == s@[i as int]);
        }
        assert(spec_token(cur) =~= Seq::<char>::empty());
        assert(s@.subrange(0, i as int).add(spec_token(cur)) =~= s@.subrange(0, i as int));
    }
    let name = s.substring_char(0, i).to_owned();
    let rest = if i < n {
        s.substring_char(i + 1, n).to_owned()
    } else {
        String::new()
    };
    proof {
        let cur = s@.subrange(i as int, n as int);
        if i < n {
            assert(cur.subrange(1, cur.len() as int) =~= s@.subrange(i as int + 1, n as int));
            assert(spec_rest(cur) == cur.subrange(1, cur.len() as int));
        } else {
            assert(rest@ =~= spec_rest(cur));
        }
    }
    (name, rest)
}

/// The in-game console: scrollback, prompt, pending input, and the three
/// handler registries.  Newer registrations shadow older ones of the same
/// name.
pub struct Console<A: Accessor, M: Mutator, F: Functor> {
    pub body: String,
    pub prefix: String,
    pub input: String,
    pub accessors: Vec<(String, A)>,
    pub mutators: Vec<(String, M)>,
    pub functions: Vec<(String, F)>,
}

/// What `Console::call` promises: the built-in `get`/`set` dispatch, with
/// the registries and the console text untouched except for the one
/// handler that was invoked.
pub open spec fn call_post<A: Accessor, M: Mutator, F: Functor>(
    pre: Console<A, M, F>,
    post: Console<A, M, F>,
    name: Seq<char>,
    params: Seq<char>,
    r: (bool, String),
) -> bool {
    if name == "get"@ {
        &&& post == pre
        &&& match find_key(pre.accessors@, params) {
            Option::Some(_) => r.0 && (exists|v: Seq<char>| r.1@ == params + " = "@ + v),
            Option::None => {
                if params == "q3.version"@ {
                    r.0 && r.1@ == params + " = "@ + VERSION@
                } else {
                    !r.0 && r.1@ == "\\\\2Error: \\\\1Invalid property '"@ + params + "'"@
                }
            },
        }
    } else if name == "set"@ {
        let prop = spec_token(params);
        let val = spec_rest(params);
        &&& post.body == pre.body
        &&& post.prefix == pre.prefix
        &&& post.input == pre.input
        &&& post.accessors@ == pre.accessors@
        &&& post.functions@ == pre.functions@
        &&& match find_key(pre.mutators@, prop) {
            Option::None => {
                &&& post.mutators@ == pre.mutators@
                &&& !r.0
                &&& r.1@ == "\\\\2Error: \\\\1The property '"@ + prop + "' does not exist."@
            },
            Option::Some(i) => {
                &&& post.mutators@.len() == pre.mutators@.len()
                &&& forall|j: int|
                    0 <= j < pre.mutators@.len() && j != i ==> post.mutators@[j]
                        == pre.mutators@[j]
                &&& post.mutators@[i].0 == pre.mutators@[i].0
                &&& (r.0 ==> r.1@ == "\\\\1"@ + prop + " = "@ + val)
                &&& (!r.0 ==> exists|err: Seq<char>| r.1@ == "\\\\2Error: \\\\1"@ + err)
            },
        }
    } else {
        &&& post == pre
        &&& !r.0
        &&& r.1@ == "\\\\2Error: \\\\1Invalid function"@
    }
}

/// What `Console::run_function` promises: the command is trimmed, its
/// leading word looked up among the registered functors (the built-in
/// `get`/`set` as fallback), and an unknown word is answered by an exact
/// error message with the console untouched.
pub open spec fn run_post<A: Accessor, M: Mutator, F: Functor>(
    pre: Console<A, M, F>,
    post: Console<A, M, F>,
    input: Seq<char>,
    r: (bool, String),
) -> bool {
    let t = spec_trim(input);
    let name = spec_token(t);
    let args = spec_rest(t);
    match find_key(pre.functions@, name) {
        Option::Some(i) => {
            &&& post.body == pre.body
            &&& post.prefix == pre.prefix
            &&& post.input == pre.input
            &&& post.accessors@ == pre.accessors@
            &&& post.mutators@ == pre.mutators@
            &&& post.functions@.len() == pre.functions@.len()
            &&& forall|j: int|
                0 <= j < pre.functions@.len() && j != i ==> post.functions@[j]
                    == pre.functions@[j]
            &&& post.functions@[i].0 == pre.functions@[i].0
        },
        Option::None => {
            if name == "get"@ || name == "set"@ {
                call_post(pre, post, name, args, r)
            } else {
                &&& post == pre
                &&& !r.0
                &&& r.1@ == "\\\\2Error: \\\\1Invalid function '"@ + name + "'"@
            }
        },
    }
}

/// Removing an element and reinserting (a possibly updated) one at the
/// same index keeps the length and every other element; here the
/// reinserted pair also keeps its key.
proof fn lemma_remove_insert_frame<T>(pre: Seq<(String, T)>, post: Seq<(String, T)>, i: int, v: (String, T))
    requires
        0 <= i < pre.len(),
        post == pre.remove(i).insert(i, v),
    ensures
        post.len() == pre.len(),
        post[i] == v,
        forall|j: int| 0 <= j < pre.len() && j != i ==> post[j] == pre[j],
{
    let rem = pre.remove(i);
    assert(rem.len() == pre.len() - 1);
    assert(post.len() == pre.len());
    assert(post[i] == v);
    assert forall|j: int| 0 <= j < pre.len() && j != i implies post[j] == pre[j] by {
        if j < i {
            assert(rem[j] == pre[j]);
            assert(post[j] == rem[j]);
        } else {
            assert(rem[j - 1] == pre[j]);
            assert(post[j] == rem[j - 1]);
        }
    }
}

/// Scans a registry for `name`, newest entry first.
fn find_entry<T>(v: &Vec<(String, T)>, name: &str) -> (r: Option<usize>)
    ensures
        match r {
            Option::Some(i) => i < v@.len() && find_key(v@, name@) == Option::Some(i as int),
            Option::None => find_key(v@, name@) is None,
        },
{
    let mut i: usize = v.len();
    proof {
        assert(v@.take(v@.len() as int) =~= v@);
    }
    while i > 0
        invariant
            0 <= i <= v@.len(),
            find_key(v@, name@) == find_key(v@.take(i as int), name@),
        decreases i,
    {
        proof {
            assert(v@.take(i as int).last() == v@[i as int - 1]);
            assert(v@.take(i as int).drop_last() =~= v@.take(i as int - 1));
        }
        if str_eq(v[i - 1].0.as_str(), name) {
            return Option::Some(i - 1);
        }
        i = i - 1;
    }
    proof {
        assert(v@.take(0) =~= Seq::<(String, T)>::empty());
    }
    Option::None
}

impl<A: Accessor, M: Mutator, F: Functor> Console<A, M, F> {
    /// A fresh console: welcome text, the `> ` prompt, and no handlers.
    pub fn new() -> (c: Console<A, M, F>)
        ensures
            c.body@ == "Welcome to Q3\nVersion: 1.0"@,
            c.prefix@ == "> "@,
            c.input@ =~= Seq::<char>::empty(),
            c.accessors@.len() == 0,
            c.mutators@.len() == 0,
            c.functions@.len() == 0,
    {
        Console {
            body: "Welcome to Q3\nVersion: 1.0".to_owned(),
            prefix: "> ".to_owned(),
            input: String::new(),
            accessors: Vec::new(),
            mutators: Vec::new(),
            functions: Vec::new(),
        }
    }

    /// Registers a command handler under `name`.
    pub fn add_function(&mut self, name: String, func: F)
        ensures
            final(self).functions@ == old(self).functions@.push((name, func)),
            final(self).accessors@ == old(self).accessors@,
            final(self).mutators@ == old(self).mutators@,
            final(self).body == old(self).body,
            final(self).prefix == old(self).prefix,
            final(self).input == old(self).input,
    {
        self.functions.push((name, func));
    }

    /// Registers a property reader under `name`.
    pub fn add_accessor(&mut self, name: &str, accessor: A)
        ensures
            final(self).accessors@.len() == old(self).accessors@.len() + 1,
            final(self).accessors@.drop_last() == old(self).accessors@,
            final(self).accessors@.last().0@ == name@,
            final(self).accessors@.last().1 == accessor,
            final(self).functions@ == old(self).functions@,
            final(self).mutators@ == old(self).mutators@,
            final(self).body == old(self).body,
            final(self).prefix == old(self).prefix,
            final(self).input == old(self).input,
    {
        self.accessors.push((name.to_owned(), accessor));
        proof {
            assert(self.accessors@.drop_last() =~= old(self).accessors@);
        }
    }

    /// Registers a property writer under `name`.
    pub fn add_mutator(&mut self, name: &str, mutator: M)
        ensures
            final(self).mutators@.len() == old(self).mutators@.len() + 1,
            final(self).mutators@.drop_last() == old(self).mutators@,
            final(self).mutators@.last().0@ == name@,
            final(self).mutators@.last().1 == mutator,
            final(self).functions@ == old(self).functions@,
            final(self).accessors@ == old(self).accessors@,
            final(self).body == old(self).body,
            final(self).prefix == old(self).prefix,
            final(self).input == old(self).input,
    {
        self.mutators.push((name.to_owned(), mutator));
        proof {
            assert(self.mutators@.drop_last() =~= old(self).mutators@);
        }
    }

    /// Appends a line to the scrollback body.
    pub fn add_log(&mut self, text: &str)
        ensures
            final(self).body@ == old(self).body@ + "\n"@ + text@,
            final(self).prefix == old(self).prefix,
            final(self).input == old(self).input,
            final(self).accessors@ == old(self).accessors@,
            final(self).mutators@ == old(self).mutators@,
            final(self).functions@ == old(self).functions@,
    {
        self.body.append("\n");
        self.body.append(text);
    }

    /// Appends an error line, in the console's error color markup.
    pub fn add_error_log(&mut self, text: &str)
        ensures
            final(self).body@ == old(self).body@ + "\n\\2Error: \\1"@ + text@,
            final(self).prefix == old(self).prefix,
            final(self).input == old(self).input,
            final(self).accessors@ == old(self).accessors@,
            final(self).mutators@ == old(self).mutators@,
            final(self).functions@ == old(self).functions@,
    {
        self.body.append("\n\\2Error: \\1");
        self.body.append(text);
    }

    /// Dispatches the built-in `get` and `set` commands.
    ///
    /// `get <prop>` reads through the newest accessor registered under
    /// `<prop>`, falling back to the built-in `q3.version`; `set <prop>
    /// <value>` writes through the newest matching mutator.  What a
    /// caller-supplied handler returns is its own affair; every message
    /// the console itself builds is pinned exactly.
    pub fn call(&mut self, name: &str, params: &str) -> (r: (bool, String))
        ensures
            call_post(*old(self), *final(self), name@, params@, r),
    {
        let is_get = str_eq(name, "get");
        let is_set = str_eq(name, "set");
        if is_get {
            match find_entry(&self.accessors, params) {
                Option::Some(i) => {
                    let value = self.accessors[i].1.access(params);
                    let msg = params.to_owned().concat(" = ").concat(value.as_str());
                    (true, msg)
                },
                Option::None => {
                    if str_eq(params, "q3.version") {
                        let value = self.access(params);
                        let msg = params.to_owned().concat(" = ").concat(value.as_str());
                        (true, msg)
                    } else {
                        let msg = "\\\\2Error: \\\\1Invalid property '".to_owned().concat(
                            params,
                        ).concat("'");
                        (false, msg)
                    }
                },
            }
        } else if is_set {
            let (prop, val) = split_first(params);
            match find_entry(&self.mutators, prop.as_str()) {
                Option::Some(i) => {
                    let ghost pre_muts = self.mutators@;
                    let (key, mut mu) = self.mutators.remove(i);
                    let res = mu.mutate(prop.as_str(), val.as_str());
                    self.mutators.insert(i, (key, mu));
                    proof {
                        lemma_remove_insert_frame(pre_muts, self.mutators@, i as int, self.mutators@[i as int]);
                    }
                    match res {
                        Option::Some(err) => {
                            let msg = "\\\\2Error: \\\\1".to_owned().concat(err.as_str());
                            (false, msg)
                        },
                        Option::None => {
                            let msg = "\\\\1".to_owned().concat(prop.as_str()).concat(
                                " = ",
                            ).concat(val.as_str());
                            (true, msg)
                        },
                    }
                },
                Option::None => {
                    let msg = "\\\\2Error: \\\\1The property '".to_owned().concat(
                        prop.as_str(),
                    ).concat("' does not exist.");
                    (false, msg)
                },
            }
        } else {
            (false, "\\\\2Error: \\\\1Invalid function".to_owned())
        }
    }

    /// Parses and runs one console command: trims it, splits the leading
    /// word, and dispatches to the newest functor registered under that
    /// word, or to the built-in `get`/`set` handling.
    pub fn run_function(&mut self, input_func: String) -> (r: (bool, String))
        ensures
            run_post(*old(self), *final(self), input_func@, r),
    {
        let trimmed = trim_str(input_func.as_str());
        let pair = split_first(trimmed.as_str());
        let func = pair.0;
        let args = pair.1;
        match find_entry(&self.functions, func.as_str()) {
            Option::Some(i) => {
                let ghost pre_funcs = self.functions@;
                let (key, mut f) = self.functions.remove(i);
                let out = f.call(func.as_str(), args.as_str());
                self.functions.insert(i, (key, f));
                proof {
                    lemma_remove_insert_frame(pre_funcs, self.functions@, i as int, self.functions@[i as int]);
                }
                out
            },
            Option::None => {
                let is_get = str_eq(func.as_str(), "get");
                let is_set = str_eq(func.as_str(), "set");
                if is_get || is_set {
                    self.call(func.as_str(), args.as_str())
                } else {
                    let msg = "\\\\2Error: \\\\1Invalid function '".to_owned().concat(
                        func.as_str(),
                    ).concat("'");
                    (false, msg)
                }
            },
        }
    }

    /// The console's own built-in property reader.
    pub fn access(&self, name: &str) -> (r: String)
        ensures
            name@ == "q3.version"@ ==> r@ == VERSION@,
            name@ != "q3.version"@ ==> r@ == "ERROR"@,
    {
        if str_eq(name, "q3.version") {
            VERSION.to_owned()
        } else {
            "ERROR".to_owned()
        }
    }
}

} // verus!
