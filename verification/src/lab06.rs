//! The command interpreter: commands are registered by name, and each line of
//! a script is resolved to the command it runs, to a suggested command when
//! the name is misspelt, or to the end of the script.

use vstd::prelude::*;
use vstd::utf8::encode_utf8;
use crate::text::{chars_of, lemma_lines_concat, lines, split_lines, split_ws, split_whitespace, str_equal, string_of, trim, trim_chars};

verus! {

/// `str::to_lowercase`, Unicode's full lower-case mapping of a string.
pub uninterp spec fn str_lowercase(s: Seq<char>) -> Seq<char>;

/// `str::to_lowercase`. Trusted: the result is the lower-case mapping of the
/// argument, a function of the argument alone; Unicode's tables are not
/// written out here.
#[verifier::external_body]
fn lowercase(s: &str) -> (r: String)
    ensures
        r@ == str_lowercase(s@),
{
    s.to_lowercase()
}

/// The first space of `s`, if there is one.
pub open spec fn first_space(s: Seq<char>) -> Option<int> {
    if exists|i: int| 0 <= i < s.len() && s[i] == ' ' {
        Some(choose|i: int| 0 <= i < s.len() && s[i] == ' ' && forall|j: int| 0 <= j < i ==> s[j] != ' ')
    } else {
        None
    }
}

/// The command name of a trimmed line: everything before its first space.
pub open spec fn command_name(t: Seq<char>) -> Seq<char> {
    match first_space(t) {
        Some(i) => t.take(i),
        None => t,
    }
}

/// The arguments of a trimmed line: the words after its first space.
pub open spec fn command_args(t: Seq<char>) -> Seq<Seq<char>> {
    match first_space(t) {
        Some(i) => split_ws(t.skip(i + 1)),
        None => seq![],
    }
}

/// How many of the first `n` characters of `a` differ from those of `b`.
pub open spec fn diff_count(a: Seq<char>, b: Seq<char>, n: int) -> int
    decreases n,
{
    if n <= 0 {
        0
    } else {
        diff_count(a, b, n - 1) + if a[n - 1] != b[n - 1] {
            1int
        } else {
            0int
        }
    }
}

/// What the search for a suggested command ends with.
pub enum Suggestion {
    /// The command with this index is suggested.
    Pick(int),
    /// No command comes close.
    Nothing,
    /// The search cannot go on: a command and the name have the same length
    /// in bytes but the name has fewer characters, so comparing them
    /// character by character runs past the end of the name.
    Fails,
}

/// The suggestion search from the command with index `k` on: a command is
/// suggested when it equals the lower-cased name, or when it has the name's
/// length in bytes (as `str::len` reports it) and differs from it in exactly
/// one character.
pub open spec fn suggest_from(names: Seq<Seq<char>>, name: Seq<char>, lowered: Seq<char>, k: int) -> Suggestion
    decreases names.len() - k,
{
    if k < 0 || k >= names.len() {
        Suggestion::Nothing
    } else if names[k] == lowered {
        Suggestion::Pick(k)
    } else if encode_utf8(names[k]).len() as usize == encode_utf8(name).len() as usize {
        if name.len() < names[k].len() {
            Suggestion::Fails
        } else if diff_count(names[k], name, names[k].len() as int) == 1 {
            Suggestion::Pick(k)
        } else {
            suggest_from(names, name, lowered, k + 1)
        }
    } else {
        suggest_from(names, name, lowered, k + 1)
    }
}

proof fn lemma_pick_in_range(names: Seq<Seq<char>>, name: Seq<char>, lowered: Seq<char>, k: int, p: int)
    requires
        suggest_from(names, name, lowered, k) == Suggestion::Pick(p),
    ensures
        0 <= p < names.len(),
    decreases names.len() - k,
{
    if 0 <= k < names.len() && suggest_from(names, name, lowered, k) != Suggestion::Pick(k) {
        lemma_pick_in_range(names, name, lowered, k + 1, p);
    }
}

/// The first index at which `names` holds `n`, if any.
pub open spec fn first_index(names: Seq<Seq<char>>, n: Seq<char>) -> Option<int> {
    if exists|j: int| 0 <= j < names.len() && names[j] == n {
        Some(choose|j: int| 0 <= j < names.len() && names[j] == n && forall|i: int| 0 <= i < j ==> names[i] != n)
    } else {
        None
    }
}

/// What a line of a script makes the terminal do.
pub enum LineAction {
    /// A blank line.
    Skip,
    /// The `stop` command: the script ends.
    Stop,
    /// Run the command with this index on these arguments.
    Run { index: usize, args: Vec<String> },
    /// The name is unknown but close to the command with this index, which
    /// runs on these arguments.
    Suggest { index: usize, args: Vec<String> },
    /// No command matches or comes close.
    Invalid,
}

/// The strings of `v` hold the character sequences of `w`.
pub open spec fn strings_are(v: Seq<String>, w: Seq<Seq<char>>) -> bool {
    v.len() == w.len() && forall|i: int| 0 <= i < v.len() ==> #[trigger] v[i]@ == w[i]
}

/// The action for a line, given the command names and the lower-case form of
/// the line's command name.
pub open spec fn line_action(names: Seq<Seq<char>>, line: Seq<char>, lowered: Seq<char>, a: LineAction) -> bool {
    let t = trim(line);
    let name = command_name(t);
    let args = command_args(t);
    if t.len() == 0 {
        a is Skip
    } else if name == "stop"@ {
        a is Stop
    } else if first_index(names, name) is Some {
        a matches LineAction::Run { index, args: got } && index as int == first_index(names, name)->0
            && strings_are(got@, args)
    } else {
        match suggest_from(names, name, lowered, 0) {
            Suggestion::Pick(k) => a matches LineAction::Suggest { index, args: got } && index as int
                == first_index(names, names[k])->0 && strings_are(got@, args),
            _ => a is Invalid,
        }
    }
}

/// The suggestion search for the line's command name cannot go on (see
/// `Suggestion::Fails`).
pub open spec fn line_fails(names: Seq<Seq<char>>, line: Seq<char>, lowered: Seq<char>) -> bool {
    let t = trim(line);
    let name = command_name(t);
    t.len() > 0 && name != "stop"@ && first_index(names, name) is None && suggest_from(names, name, lowered, 0) is Fails
}

/// The lower-case form of a line's command name, as the suggestion search
/// uses it.
pub open spec fn lowered_name(line: Seq<char>) -> Seq<char> {
    str_lowercase(command_name(trim(line)))
}

/// A `stop` line: its command name is `stop`.
pub open spec fn is_stop_line(line: Seq<char>) -> bool {
    trim(line).len() > 0 && command_name(trim(line)) == "stop"@
}

/// The index of the first `stop` line of `ls` from index `i` on, or
/// `ls.len()` when there is none.
pub open spec fn first_stop(ls: Seq<Seq<char>>, i: int) -> int
    decreases ls.len() - i,
{
    if i < 0 || i >= ls.len() {
        ls.len() as int
    } else if is_stop_line(ls[i]) {
        i
    } else {
        first_stop(ls, i + 1)
    }
}

proof fn lemma_first_stop_bounds(ls: Seq<Seq<char>>, i: int)
    requires
        0 <= i <= ls.len(),
    ensures
        i <= first_stop(ls, i) <= ls.len(),
        first_stop(ls, i) < ls.len() ==> is_stop_line(ls[first_stop(ls, i)]),
    decreases ls.len() - i,
{
    if i < ls.len() && !is_stop_line(ls[i]) {
        lemma_first_stop_bounds(ls, i + 1);
    }
}

/// How many lines of a script are read: all of them up to and including the
/// first `stop` line, or all lines when there is none.
pub open spec fn read_count(ls: Seq<Seq<char>>) -> int {
    if first_stop(ls, 0) < ls.len() {
        first_stop(ls, 0) + 1
    } else {
        ls.len() as int
    }
}

/// `a` is what the line does, and the suggestion search does not fail on it.
pub open spec fn line_done(names: Seq<Seq<char>>, line: Seq<char>, a: LineAction) -> bool {
    !line_fails(names, line, lowered_name(line)) && line_action(names, line, lowered_name(line), a)
}

/// `acts` are the actions of the script's lines, in order, from the first
/// line until the lines read end (see `read_count`) or until a line on which
/// the suggestion search fails; `fails` says whether such a line was
/// reached, at index `acts.len()`.
pub open spec fn script_result(names: Seq<Seq<char>>, ls: Seq<Seq<char>>, acts: Seq<LineAction>, fails: bool) -> bool {
    let n = read_count(ls);
    &&& acts.len() <= n
    &&& forall|m: int| 0 <= m < acts.len() ==> line_done(names, ls[m], #[trigger] acts[m])
    &&& fails ==> acts.len() < n && line_fails(names, ls[acts.len() as int], lowered_name(ls[acts.len() as int]))
    &&& !fails ==> acts.len() == n
}

proof fn lemma_first_stop_past(lp: Seq<Seq<char>>, ls: Seq<Seq<char>>, i: int)
    requires
        0 <= i <= lp.len(),
        forall|k: int| 0 <= k < lp.len() ==> !#[trigger] is_stop_line(lp[k]),
        ls.len() > 0,
        is_stop_line(ls[0]),
    ensures
        first_stop(lp + ls, i) == lp.len(),
        first_stop(lp, i) == lp.len(),
    decreases lp.len() - i,
{
    if i < lp.len() {
        assert((lp + ls)[i] == lp[i]);
        lemma_first_stop_past(lp, ls, i + 1);
    } else {
        assert((lp + ls)[i] == ls[0]);
    }
}

/// A script ends at its first `stop` line: for a script made of a part `p`
/// without a `stop` line (ending with a newline, or empty) followed by a
/// part `s` whose first line is a `stop` line, the terminal does on the
/// lines of `p` what it does on `p` alone, in the same order, then stops;
/// nothing of `s` after its `stop` line is read. When a line of `p` makes
/// the suggestion search fail, both end there.
pub proof fn stop_ends_script(
    names: Seq<Seq<char>>,
    p: Seq<char>,
    s: Seq<char>,
    acts: Seq<LineAction>,
    fails: bool,
    acts_p: Seq<LineAction>,
    fails_p: bool,
)
    requires
        p.len() == 0 || p.last() == '\n',
        forall|k: int| 0 <= k < lines(p).len() ==> !#[trigger] is_stop_line(lines(p)[k]),
        lines(s).len() > 0,
        is_stop_line(lines(s)[0]),
        script_result(names, lines(p + s), acts, fails),
        script_result(names, lines(p), acts_p, fails_p),
    ensures
        fails == fails_p,
        acts.len() == acts_p.len() + if fails { 0int } else { 1int },
        forall|m: int| 0 <= m < acts_p.len() ==> line_done(names, lines(p)[m], #[trigger] acts[m]),
        !fails ==> acts.last() is Stop,
{
    let lp = lines(p);
    let ls = lines(s);
    let l = lines(p + s);
    if p.len() == 0 {
        assert(p + s =~= s);
        assert(lp == Seq::<Seq<char>>::empty());
    } else {
        lemma_lines_concat(p, s, seq![]);
    }
    assert(l =~= lp + ls);
    lemma_first_stop_past(lp, ls, 0);
    let n = lp.len() as int;
    assert(read_count(lp) == n);
    assert(read_count(l) == n + 1);
    assert(l[n] == ls[0]);
    assert(!line_fails(names, l[n], lowered_name(l[n])));
    assert forall|m: int| 0 <= m < n implies #[trigger] l[m] == lp[m] by {}
    let a = acts.len() as int;
    let b = acts_p.len() as int;
    if fails {
        assert(a < n);
        assert(line_fails(names, lp[a], lowered_name(lp[a])));
        if b > a {
            assert(line_done(names, lp[a], acts_p[a]));
        }
        if !fails_p {
            assert(b == n);
        }
        if b < a {
            assert(line_done(names, l[b], acts[b]));
        }
        assert(a == b);
    } else {
        assert(a == n + 1);
        if fails_p {
            assert(line_done(names, l[b], acts[b]));
        }
        assert(line_done(names, l[n], acts[n]));
    }
    assert forall|m: int| 0 <= m < b implies line_done(names, lp[m], #[trigger] acts[m]) by {
        assert(line_done(names, l[m], acts[m]));
    }
}

/// The terminal: the names of the registered commands, in order.
pub struct Terminal {
    pub commands: Vec<String>,
}

impl Terminal {
    /// The names, as character sequences.
    pub open spec fn names(&self) -> Seq<Seq<char>> {
        self.commands@.map_values(|s: String| s@)
    }

    /// A terminal without commands.
    pub fn new() -> (t: Terminal)
        ensures
            t.commands@.len() == 0,
    {
        Terminal { commands: Vec::new() }
    }

    /// Adds a command at the end of the list.
    pub fn register(&mut self, name: String)
        ensures
            final(self).commands@ == old(self).commands@.push(name),
    {
        self.commands.push(name);
    }

    fn find_command(&self, name: &str) -> (r: Option<usize>)
        ensures
            r matches Some(j) ==> first_index(self.names(), name@) == Some(j as int),
            r is None ==> first_index(self.names(), name@) is None,
    {
        let mut j: usize = 0;
        while j < self.commands.len()
            invariant
                j <= self.commands@.len(),
                forall|i: int| 0 <= i < j ==> self.names()[i] != name@,
            decreases self.commands@.len() - j,
        {
            if str_equal(self.commands[j].as_str(), name) {
                proof {
                    let w = choose|w: int| 0 <= w < self.names().len() && self.names()[w] == name@ && forall|i: int| 0 <= i < w ==> self.names()[i] != name@;
                    assert(self.names()[j as int] == name@);
                    if w < j {
                        assert(self.names()[w] != name@);
                    }
                    if j < w {
                        assert(self.names()[j as int] != name@);
                    }
                }
                return Some(j);
            }
            j = j + 1;
        }
        None
    }

    fn suggest(&self, name: &Vec<char>, name_str: &str, lowered: &str) -> (r: Option<usize>)
        requires
            name_str@ == name@,
            !(suggest_from(self.names(), name@, lowered@, 0) is Fails),
        ensures
            r matches Some(k) ==> suggest_from(self.names(), name@, lowered@, 0) == Suggestion::Pick(k as int),
            r is None ==> suggest_from(self.names(), name@, lowered@, 0) is Nothing,
    {
        let mut k: usize = 0;
        while k < self.commands.len()
            invariant
                k <= self.commands@.len(),
                name_str@ == name@,
                self.names().len() == self.commands@.len(),
                !(suggest_from(self.names(), name@, lowered@, 0) is Fails),
                suggest_from(self.names(), name@, lowered@, 0) == suggest_from(self.names(), name@, lowered@, k as int),
            decreases self.commands@.len() - k,
        {
            let corect = self.commands[k].as_str();
            assert(self.names()[k as int] == self.commands@[k as int]@);
            if str_equal(corect, lowered) {
                return Some(k);
            }
            if corect.len() == name_str.len() {
                let cc = chars_of(corect);
                let mut dif: usize = 0;
                let mut i: usize = 0;
                while i < cc.len()
                    invariant
                        i <= cc@.len(),
                        k < self.commands@.len(),
                        self.names().len() == self.commands@.len(),
                        cc@ == self.names()[k as int],
                        cc@.len() <= name@.len(),
                        dif as int == diff_count(cc@, name@, i as int),
                        dif <= i,
                    decreases cc@.len() - i,
                {
                    if cc[i] != name[i] {
                        dif = dif + 1;
                    }
                    i = i + 1;
                }
                if dif == 1 {
                    return Some(k);
                }
            }
            k = k + 1;
        }
        None
    }

    /// What a line does, given the lower-case form of its command name. The
    /// line must not be one on which the suggestion search fails.
    pub fn decide_line(&self, line: &str, lowered: &str) -> (a: LineAction)
        requires
            !line_fails(self.names(), line@, lowered@),
        ensures
            line_action(self.names(), line@, lowered@, a),
    {
        let (t, name, args) = split_command(line);
        if t.len() == 0 {
            return LineAction::Skip;
        }
        if str_equal(name.as_str(), "stop") {
            return LineAction::Stop;
        }
        if let Some(j) = self.find_command(name.as_str()) {
            return LineAction::Run { index: j, args };
        }
        let name_chars = chars_of(name.as_str());
        match self.suggest(&name_chars, name.as_str(), lowered) {
            Some(k) => {
                proof {
                    lemma_pick_in_range(self.names(), name@, lowered@, 0, k as int);
                    assert(self.names()[k as int] == self.commands@[k as int]@);
                }
                let found = self.find_command(self.commands[k].as_str());
                match found {
                    Some(j) => LineAction::Suggest { index: j, args },
                    None => LineAction::Invalid,
                }
            },
            None => LineAction::Invalid,
        }
    }

    /// What a line does, or `None` on a line on which the suggestion search
    /// fails (see `line_fails`).
    pub fn interpret_line(&self, line: &str) -> (r: Option<LineAction>)
        ensures
            r matches Some(a) ==> line_action(self.names(), line@, str_lowercase(command_name(trim(line@))), a),
            r is None <==> line_fails(self.names(), line@, str_lowercase(command_name(trim(line@)))),
    {
        let (t, name, args) = split_command(line);
        let lowered = lowercase(name.as_str());
        if self.line_would_fail(line, lowered.as_str()) {
            return None;
        }
        Some(self.decide_line(line, lowered.as_str()))
    }

    /// The actions of a whole script, line by line: reading ends after the
    /// first `stop` line, and at a line on which the suggestion search fails
    /// (the second part of the result then holds `true`).
    pub fn script_actions(&self, text: &str) -> (r: (Vec<LineAction>, bool))
        ensures
            script_result(self.names(), lines(text@), r.0@, r.1),
    {
        let ls = split_lines(&chars_of(text));
        let ghost g = lines(text@);
        let mut out: Vec<LineAction> = Vec::new();
        let mut k: usize = 0;
        while k < ls.len()
            invariant
                k <= ls@.len(),
                ls@.len() == g.len(),
                g == lines(text@),
                forall|m: int| 0 <= m < ls@.len() ==> #[trigger] ls@[m]@ == g[m],
                out@.len() == k,
                first_stop(g, 0) == first_stop(g, k as int),
                forall|m: int| 0 <= m < k ==> line_done(self.names(), g[m], #[trigger] out@[m]),
            decreases ls@.len() - k,
        {
            let line = string_of(&ls[k]);
            assert(line@ == g[k as int]);
            proof {
                lemma_first_stop_bounds(g, k as int);
            }
            match self.interpret_line(line.as_str()) {
                None => {
                    return (out, true);
                },
                Some(a) => {
                    let stop = match &a {
                        LineAction::Stop => true,
                        _ => false,
                    };
                    assert(line_action(self.names(), g[k as int], lowered_name(g[k as int]), a));
                    assert(!line_fails(self.names(), g[k as int], lowered_name(g[k as int])));
                    assert(line_done(self.names(), g[k as int], a));
                    assert(stop <==> is_stop_line(g[k as int]));
                    let ghost before = out@;
                    out.push(a);
                    assert forall|m: int| 0 <= m < k + 1 implies line_done(self.names(), g[m], #[trigger] out@[m]) by {
                        if m < k {
                            assert(out@[m] == before[m]);
                            assert(line_done(self.names(), g[m], before[m]));
                        } else {
                            assert(out@[m] == a);
                        }
                    }
                    if stop {
                        return (out, false);
                    }
                    k = k + 1;
                },
            }
        }
        proof {
            lemma_first_stop_bounds(g, k as int);
        }
        (out, false)
    }

    /// Whether the suggestion search fails on the line.
    pub fn line_would_fail(&self, line: &str, lowered: &str) -> (r: bool)
        ensures
            r == line_fails(self.names(), line@, lowered@),
    {
        let (t, name, args) = split_command(line);
        if t.len() == 0 || str_equal(name.as_str(), "stop") {
            return false;
        }
        if self.find_command(name.as_str()).is_some() {
            return false;
        }
        let name_chars = chars_of(name.as_str());
        let mut k: usize = 0;
        while k < self.commands.len()
            invariant
                k <= self.commands@.len(),
                name_chars@ == name@,
                name@ == command_name(trim(line@)),
                t@ == trim(line@),
                t@.len() > 0,
                name@ != "stop"@,
                first_index(self.names(), name@) is None,
                self.names().len() == self.commands@.len(),
                suggest_from(self.names(), name@, lowered@, 0) == suggest_from(self.names(), name@, lowered@, k as int),
            decreases self.commands@.len() - k,
        {
            let corect = self.commands[k].as_str();
            assert(self.names()[k as int] == self.commands@[k as int]@);
            if str_equal(corect, lowered) {
                return false;
            }
            if corect.len() == name.as_str().len() {
                let cc = chars_of(corect);
                if name_chars.len() < cc.len() {
                    return true;
                }
                let mut dif: usize = 0;
                let mut i: usize = 0;
                while i < cc.len()
                    invariant
                        i <= cc@.len(),
                        k < self.commands@.len(),
                        self.names().len() == self.commands@.len(),
                        cc@ == self.names()[k as int],
                        name_chars@ == name@,
                        cc@.len() <= name@.len(),
                        dif as int == diff_count(cc@, name@, i as int),
                        dif <= i,
                    decreases cc@.len() - i,
                {
                    if cc[i] != name_chars[i] {
                        dif = dif + 1;
                    }
                    i = i + 1;
                }
                if dif == 1 {
                    return false;
                }
            }
            k = k + 1;
        }
        false
    }
}

/// Trims a line and splits it into its command name and its arguments.
pub fn split_command(line: &str) -> (r: (Vec<char>, String, Vec<String>))
    ensures
        r.0@ == trim(line@),
        r.1@ == command_name(trim(line@)),
        strings_are(r.2@, command_args(trim(line@))),
{
    let t = trim_chars(&chars_of(line));
    let mut p: usize = 0;
    while p < t.len() && t[p] != ' '
        invariant
            p <= t@.len(),
            forall|j: int| 0 <= j < p ==> t@[j] != ' ',
        decreases t@.len() - p,
    {
        p = p + 1;
    }
    let mut name_chars: Vec<char> = Vec::new();
    let mut i: usize = 0;
    while i < p
        invariant
            i <= p <= t@.len(),
            name_chars@ == t@.take(i as int),
        decreases p - i,
    {
        name_chars.push(t[i]);
        i = i + 1;
        assert(name_chars@ =~= t@.take(i as int));
    }
    let mut args: Vec<String> = Vec::new();
    if p < t.len() {
        proof {
            let w = choose|w: int| 0 <= w < t@.len() && t@[w] == ' ' && forall|j: int| 0 <= j < w ==> t@[j] != ' ';
            assert(t@[p as int] == ' ');
            if w < p {
                assert(t@[w] != ' ');
            }
            if p < w {
                assert(t@[p as int] != ' ');
            }
            assert(first_space(t@) == Some(p as int));
        }
        let mut rest: Vec<char> = Vec::new();
        let mut j: usize = p + 1;
        while j < t.len()
            invariant
                p + 1 <= j <= t@.len(),
                rest@ == t@.subrange(p + 1, j as int),
            decreases t@.len() - j,
        {
            rest.push(t[j]);
            j = j + 1;
            assert(rest@ =~= t@.subrange(p + 1, j as int));
        }
        assert(rest@ =~= t@.skip(p + 1));
        let words = split_whitespace(&rest);
        let mut k: usize = 0;
        while k < words.len()
            invariant
                k <= words@.len(),
                words@.len() == split_ws(rest@).len(),
                forall|m: int| 0 <= m < words@.len() ==> #[trigger] words@[m]@ == split_ws(rest@)[m],
                args@.len() == k,
                forall|m: int| 0 <= m < k ==> #[trigger] args@[m]@ == split_ws(rest@)[m],
            decreases words@.len() - k,
        {
            args.push(string_of(&words[k]));
            k = k + 1;
        }
    } else {
        assert(name_chars@ =~= t@);
    }
    let name = string_of(&name_chars);
    (t, name, args)
}

/// Of the first `n` characters of `a` and `b`, those at `p` differ and all
/// others are equal.
pub open spec fn differ_only_at(a: Seq<char>, b: Seq<char>, n: int, p: int) -> bool {
    &&& 0 <= p < n
    &&& a[p] != b[p]
    &&& forall|q: int| 0 <= q < n && q != p ==> #[trigger] a[q] == b[q]
}

/// `c` and `name` have the same length in bytes, and the characters of `c`
/// match the first characters of `name` in all places but one.
pub open spec fn one_char_apart(c: Seq<char>, name: Seq<char>) -> bool {
    &&& encode_utf8(c).len() as usize == encode_utf8(name).len() as usize
    &&& c.len() <= name.len()
    &&& exists|p: int| #[trigger] differ_only_at(c, name, c.len() as int, p)
}

/// A command that may stand for a misspelt name: the lower-case form of the
/// name, or one character apart from it.
pub open spec fn close_command(c: Seq<char>, name: Seq<char>, lowered: Seq<char>) -> bool {
    c == lowered || one_char_apart(c, name)
}

proof fn lemma_diff_zero(a: Seq<char>, b: Seq<char>, n: int)
    requires
        0 <= n <= a.len(),
        n <= b.len(),
    ensures
        diff_count(a, b, n) >= 0,
        diff_count(a, b, n) == 0 <==> forall|q: int| 0 <= q < n ==> #[trigger] a[q] == b[q],
    decreases n,
{
    if n > 0 {
        lemma_diff_zero(a, b, n - 1);
        if forall|q: int| 0 <= q < n ==> #[trigger] a[q] == b[q] {
            assert(a[n - 1] == b[n - 1]);
        }
        if diff_count(a, b, n) == 0 {
            assert forall|q: int| 0 <= q < n implies #[trigger] a[q] == b[q] by {
                if q < n - 1 {
                    assert(a[q] == b[q]);
                }
            }
        }
    }
}

proof fn lemma_diff_one(a: Seq<char>, b: Seq<char>, n: int, p: int)
    requires
        n <= a.len(),
        n <= b.len(),
        differ_only_at(a, b, n, p),
    ensures
        diff_count(a, b, n) == 1,
    decreases n,
{
    if p == n - 1 {
        lemma_diff_zero(a, b, n - 1);
        assert forall|q: int| 0 <= q < n - 1 implies #[trigger] a[q] == b[q] by {
            assert(q != p);
        }
    } else {
        assert(a[n - 1] == b[n - 1]);
        assert(differ_only_at(a, b, n - 1, p));
        lemma_diff_one(a, b, n - 1, p);
    }
}

proof fn lemma_diff_one_back(a: Seq<char>, b: Seq<char>, n: int)
    requires
        0 <= n <= a.len(),
        n <= b.len(),
        diff_count(a, b, n) == 1,
    ensures
        exists|p: int| #[trigger] differ_only_at(a, b, n, p),
    decreases n,
{
    lemma_diff_zero(a, b, n - 1);
    if a[n - 1] != b[n - 1] {
        assert(differ_only_at(a, b, n, n - 1));
    } else {
        lemma_diff_one_back(a, b, n - 1);
        let p = choose|p: int| #[trigger] differ_only_at(a, b, n - 1, p);
        assert(differ_only_at(a, b, n, p));
    }
}

proof fn lemma_close_step(c: Seq<char>, name: Seq<char>, lowered: Seq<char>)
    requires
        c != lowered,
        encode_utf8(c).len() as usize == encode_utf8(name).len() as usize,
        name.len() >= c.len(),
    ensures
        close_command(c, name, lowered) <==> diff_count(c, name, c.len() as int) == 1,
{
    if diff_count(c, name, c.len() as int) == 1 {
        lemma_diff_one_back(c, name, c.len() as int);
    }
    if one_char_apart(c, name) {
        let p = choose|p: int| #[trigger] differ_only_at(c, name, c.len() as int, p);
        lemma_diff_one(c, name, c.len() as int, p);
    }
}

proof fn lemma_suggest_from(names: Seq<Seq<char>>, name: Seq<char>, lowered: Seq<char>, k: int)
    requires
        0 <= k <= names.len(),
    ensures
        suggest_from(names, name, lowered, k) matches Suggestion::Pick(p) ==> k <= p < names.len()
            && close_command(names[p], name, lowered) && forall|j: int| k <= j < p ==> !close_command(#[trigger] names[j], name, lowered),
        suggest_from(names, name, lowered, k) is Nothing ==> forall|j: int| k <= j < names.len() ==> !close_command(#[trigger] names[j], name, lowered),
    decreases names.len() - k,
{
    if k < names.len() {
        let c = names[k];
        let same_bytes = encode_utf8(c).len() as usize == encode_utf8(name).len() as usize;
        if c == lowered {
        } else if same_bytes {
            if name.len() < c.len() {
            } else {
                lemma_close_step(c, name, lowered);
                if diff_count(c, name, c.len() as int) != 1 {
                    lemma_suggest_from(names, name, lowered, k + 1);
                }
            }
        } else {
            assert(!close_command(c, name, lowered));
            lemma_suggest_from(names, name, lowered, k + 1);
        }
    }
}

/// What a line whose command is not registered leads to: a suggestion only
/// for the first command (in registration order) that is the lower-case
/// form of the name or one character apart from it, run under the first
/// index holding that command's name; `invalid` exactly when no command is
/// that close.
pub proof fn suggestion_is_close(names: Seq<Seq<char>>, line: Seq<char>, a: LineAction)
    requires
        line_done(names, line, a),
    ensures
        ({
            let name = command_name(trim(line));
            let lowered = lowered_name(line);
            &&& a matches LineAction::Suggest { index, args } ==> exists|k: int|
                0 <= k < names.len() && names[index as int] == names[k] && close_command(names[k], name, lowered)
                    && forall|j: int| 0 <= j < k ==> !close_command(#[trigger] names[j], name, lowered)
            &&& a is Invalid ==> forall|k: int| 0 <= k < names.len() ==> !close_command(#[trigger] names[k], name, lowered)
        }),
{
    let name = command_name(trim(line));
    let lowered = lowered_name(line);
    lemma_suggest_from(names, name, lowered, 0);
    if a is Suggest || a is Invalid {
        if let Suggestion::Pick(k) = suggest_from(names, name, lowered, 0) {
            assert(first_index(names, names[k]) is Some);
        }
    }
}

} // verus!
