use vstd::prelude::*;
use crate::text::{append_chars, chars_of, is_whitespace, is_ws, replace_all, replace_char, string_of};

verus! {

/// `n` backslashes.
pub open spec fn backslashes(n: nat) -> Seq<char> {
    Seq::new(n, |i: int| '\\')
}

/// `s` holds whitespace or a double quote, so that it must be quoted to stay one argument.
pub open spec fn needs_quotes(s: Seq<char>) -> bool {
    exists|i: int| 0 <= i < s.len() && (is_ws(s[i]) || s[i] == '"')
}

/// Quoting `s` for a Windows command line, scanned from the left: the text written so far and
/// the number of backslashes read but not yet written (their count doubles before a quote).
pub open spec fn win_quote_scan(s: Seq<char>) -> (Seq<char>, nat)
    decreases s.len(),
{
    if s.len() == 0 {
        (Seq::empty(), 0)
    } else {
        let (out, b) = win_quote_scan(s.drop_last());
        let c = s.last();
        if c == '\\' {
            (out, b + 1)
        } else if c == '"' {
            (out + backslashes(2 * b + 1) + seq!['"'], 0)
        } else {
            (out + backslashes(b) + seq![c], 0)
        }
    }
}

/// `s` as one argument of a Windows command line: `""` when empty, unchanged when it holds
/// no whitespace and no quote, else in quotes with backslashes doubled before a quote or
/// the closing quote and each inner quote escaped.
pub open spec fn quote_windows_arg_spec(s: Seq<char>) -> Seq<char> {
    if s.len() == 0 {
        seq!['"', '"']
    } else if !needs_quotes(s) {
        s
    } else {
        let (out, b) = win_quote_scan(s);
        seq!['"'] + out + backslashes(2 * b) + seq!['"']
    }
}

fn push_backslashes(v: &mut Vec<char>, n: usize)
    ensures
        final(v)@ == old(v)@ + backslashes(n as nat),
{
    let mut k: usize = 0;
    while k < n
        invariant
            k <= n,
            v@ =~= old(v)@ + backslashes(k as nat),
        decreases n - k,
    {
        v.push('\\');
        k = k + 1;
    }
}

fn needs_quoting(arg: &[char]) -> (b: bool)
    ensures
        b == needs_quotes(arg@),
{
    let mut i: usize = 0;
    while i < arg.len()
        invariant
            i <= arg.len(),
            forall|j: int| 0 <= j < i ==> !(is_ws(arg@[j]) || arg@[j] == '"'),
        decreases arg.len() - i,
    {
        if is_whitespace(arg[i]) || arg[i] == '"' {
            return true;
        }
        i = i + 1;
    }
    false
}

pub fn quote_windows_arg_chars(arg: &[char]) -> (res: Vec<char>)
    ensures
        res@ == quote_windows_arg_spec(arg@),
{
    let mut res: Vec<char> = Vec::new();
    if arg.len() == 0 {
        res.push('"');
        res.push('"');
        assert(res@ =~= seq!['"', '"']);
        return res;
    }
    if !needs_quoting(arg) {
        append_chars(&mut res, arg);
        assert(res@ =~= arg@);
        return res;
    }
    assert(needs_quotes(arg@));
    let mut out: Vec<char> = Vec::new();
    let mut b: usize = 0;
    let mut i: usize = 0;
    while i < arg.len()
        invariant
            i <= arg.len(),
            b <= i,
            (out@, b as nat) == win_quote_scan(arg@.take(i as int)),
        decreases arg.len() - i,
    {
        let c = arg[i];
        let ghost old_out = out@;
        assert(arg@.take(i + 1).drop_last() =~= arg@.take(i as int));
        if c == '\\' {
            b = b + 1;
        } else if c == '"' {
            push_backslashes(&mut out, b);
            push_backslashes(&mut out, b);
            out.push('\\');
            assert(out@ =~= old_out + backslashes(2 * b as nat + 1));
            out.push('"');
            b = 0;
        } else {
            push_backslashes(&mut out, b);
            out.push(c);
            b = 0;
        }
        i = i + 1;
    }
    assert(arg@.take(arg.len() as int) =~= arg@);
    res.push('"');
    append_chars(&mut res, out.as_slice());
    push_backslashes(&mut res, b);
    push_backslashes(&mut res, b);
    res.push('"');
    assert(res@ =~= seq!['"'] + out@ + backslashes(2 * b as nat) + seq!['"']);
    res
}

/// Quotes one argument for a Windows command line, following the rules that
/// `CommandLineToArgvW` reads back.
pub fn quote_windows_arg(arg: &str) -> (res: String)
    ensures
        res@ == quote_windows_arg_spec(arg@),
{
    let chars = chars_of(arg);
    let quoted = quote_windows_arg_chars(chars.as_slice());
    string_of(quoted.as_slice())
}

/// The parts joined with single spaces between them.
pub open spec fn join_spaced(parts: Seq<Seq<char>>) -> Seq<char>
    decreases parts.len(),
{
    if parts.len() == 0 {
        Seq::empty()
    } else if parts.len() == 1 {
        parts[0]
    } else {
        join_spaced(parts.drop_last()) + seq![' '] + parts.last()
    }
}

/// The command line for the arguments `args`: each one quoted, joined by single spaces.
pub open spec fn quote_windows_args_spec(args: Seq<Seq<char>>) -> Seq<char> {
    join_spaced(args.map_values(|a: Seq<char>| quote_windows_arg_spec(a)))
}

pub fn quote_windows_args(args: &Vec<String>) -> (res: String)
    ensures
        res@ == quote_windows_args_spec(args@.map_values(|a: String| a@)),
{
    let ghost views = args@.map_values(|a: String| a@);
    let ghost quoted = views.map_values(|a: Seq<char>| quote_windows_arg_spec(a));
    let mut out: Vec<char> = Vec::new();
    let mut i: usize = 0;
    while i < args.len()
        invariant
            i <= args.len(),
            views == args@.map_values(|a: String| a@),
            quoted == views.map_values(|a: Seq<char>| quote_windows_arg_spec(a)),
            out@ == join_spaced(quoted.take(i as int)),
        decreases args.len() - i,
    {
        let chars = chars_of(args[i].as_str());
        let q = quote_windows_arg_chars(chars.as_slice());
        assert(quoted.take(i + 1).drop_last() =~= quoted.take(i as int));
        assert(q@ == quoted[i as int]);
        if i > 0 {
            out.push(' ');
        } else {
            assert(out@ =~= Seq::<char>::empty());
        }
        append_chars(&mut out, q.as_slice());
        i = i + 1;
        assert(out@ =~= join_spaced(quoted.take(i as int)));
    }
    assert(quoted.take(args.len() as int) =~= quoted);
    string_of(out.as_slice())
}

/// `value` in single quotes for a POSIX shell, each single quote written as `'\''`.
pub open spec fn shell_quote_spec(value: Seq<char>) -> Seq<char> {
    seq!['\''] + replace_char(value, '\'', seq!['\'', '\\', '\'', '\'']) + seq!['\'']
}

pub fn shell_quote_chars(value: &[char]) -> (res: Vec<char>)
    ensures
        res@ == shell_quote_spec(value@),
{
    let escape: [char; 4] = ['\'', '\\', '\'', '\''];
    assert(escape@ =~= seq!['\'', '\\', '\'', '\'']);
    let escaped = replace_all(value, '\'', &escape);
    let mut res: Vec<char> = Vec::new();
    res.push('\'');
    append_chars(&mut res, escaped.as_slice());
    res.push('\'');
    assert(res@ =~= shell_quote_spec(value@));
    res
}

/// Quotes `value` as one word for a POSIX shell.
pub fn shell_quote(value: &str) -> (res: String)
    ensures
        res@ == shell_quote_spec(value@),
{
    let chars = chars_of(value);
    let quoted = shell_quote_chars(chars.as_slice());
    string_of(quoted.as_slice())
}

/// `value` as an AppleScript string literal: in double quotes, each backslash doubled and
/// each double quote preceded by a backslash.
pub open spec fn apple_script_quote_spec(value: Seq<char>) -> Seq<char> {
    seq!['"'] + replace_char(replace_char(value, '\\', seq!['\\', '\\']), '"', seq!['\\', '"'])
        + seq!['"']
}

pub fn apple_script_quote_chars(value: &[char]) -> (res: Vec<char>)
    ensures
        res@ == apple_script_quote_spec(value@),
{
    let double_backslash: [char; 2] = ['\\', '\\'];
    let escaped_quote: [char; 2] = ['\\', '"'];
    assert(double_backslash@ =~= seq!['\\', '\\']);
    assert(escaped_quote@ =~= seq!['\\', '"']);
    let first = replace_all(value, '\\', &double_backslash);
    let second = replace_all(first.as_slice(), '"', &escaped_quote);
    let mut res: Vec<char> = Vec::new();
    res.push('"');
    append_chars(&mut res, second.as_slice());
    res.push('"');
    assert(res@ =~= apple_script_quote_spec(value@));
    res
}

/// Quotes `value` as an AppleScript string literal.
pub fn apple_script_quote(value: &str) -> (res: String)
    ensures
        res@ == apple_script_quote_spec(value@),
{
    let chars = chars_of(value);
    let quoted = apple_script_quote_chars(chars.as_slice());
    string_of(quoted.as_slice())
}

/// Reading a word the way a POSIX shell does, as far as single quotes and backslashes go:
/// the text read so far, where the reader is (0 outside quotes, 1 inside single quotes,
/// 2 just after a backslash outside quotes), and whether everything read was one word of
/// such text (any other character outside quotes ends the word or needs rules not modelled).
pub struct ShellReader {
    pub text: Seq<char>,
    pub mode: int,
    pub ok: bool,
}

pub open spec fn shell_step(r: ShellReader, c: char) -> ShellReader {
    if !r.ok {
        r
    } else if r.mode == 1 {
        if c == '\'' {
            ShellReader { mode: 0, ..r }
        } else {
            ShellReader { text: r.text.push(c), ..r }
        }
    } else if r.mode == 2 {
        ShellReader { text: r.text.push(c), mode: 0, ..r }
    } else if c == '\'' {
        ShellReader { mode: 1, ..r }
    } else if c == '\\' {
        ShellReader { mode: 2, ..r }
    } else {
        ShellReader { ok: false, ..r }
    }
}

pub open spec fn shell_run(r: ShellReader, s: Seq<char>) -> ShellReader
    decreases s.len(),
{
    if s.len() == 0 {
        r
    } else {
        shell_step(shell_run(r, s.drop_last()), s.last())
    }
}

/// The word a POSIX shell reads from `s`, when `s` is one word made of single-quoted text and
/// backslash escapes.
pub open spec fn shell_read(s: Seq<char>) -> Option<Seq<char>> {
    let r = shell_run(ShellReader { text: Seq::empty(), mode: 0, ok: true }, s);
    if r.ok && r.mode == 0 {
        Some(r.text)
    } else {
        None
    }
}

proof fn lemma_shell_run_concat(r: ShellReader, a: Seq<char>, b: Seq<char>)
    ensures
        shell_run(r, a + b) == shell_run(shell_run(r, a), b),
    decreases b.len(),
{
    if b.len() == 0 {
        assert(a + b =~= a);
    } else {
        lemma_shell_run_concat(r, a, b.drop_last());
        assert((a + b).drop_last() =~= a + b.drop_last());
        assert((a + b).last() == b.last());
    }
}

/// The text of `value` with its single quotes escaped, read from inside single quotes,
/// gives `value` back and stays inside the quotes.
proof fn lemma_shell_quoted_body(value: Seq<char>)
    ensures
        shell_run(
            ShellReader { text: Seq::empty(), mode: 1, ok: true },
            replace_char(value, '\'', seq!['\'', '\\', '\'', '\'']),
        ) == (ShellReader { text: value, mode: 1, ok: true }),
    decreases value.len(),
{
    let start = ShellReader { text: Seq::empty(), mode: 1, ok: true };
    let esc = seq!['\'', '\\', '\'', '\''];
    if value.len() == 0 {
        assert(value =~= Seq::<char>::empty());
    } else {
        let prefix = value.drop_last();
        let c = value.last();
        lemma_shell_quoted_body(prefix);
        let piece = if c == '\'' { esc } else { seq![c] };
        assert(replace_char(value, '\'', esc) == replace_char(prefix, '\'', esc) + piece);
        lemma_shell_run_concat(start, replace_char(prefix, '\'', esc), piece);
        let mid = ShellReader { text: prefix, mode: 1, ok: true };
        if c == '\'' {
            assert(piece.drop_last().drop_last().drop_last().drop_last() =~= Seq::<char>::empty());
            assert(shell_run(mid, piece) == shell_step(shell_step(shell_step(shell_step(mid, '\''), '\\'), '\''), '\''))
                by {
                reveal_with_fuel(shell_run, 5);
                assert(piece.drop_last() =~= seq!['\'', '\\', '\'']);
                assert(piece.drop_last().drop_last() =~= seq!['\'', '\\']);
                assert(piece.drop_last().drop_last().drop_last() =~= seq!['\'']);
            }
        } else {
            reveal_with_fuel(shell_run, 2);
            assert(piece.drop_last() =~= Seq::<char>::empty());
        }
        assert(prefix.push(c) =~= value);
    }
}

/// Law: a POSIX shell reads the text that `shell_quote` gives as exactly one word, the
/// value that was quoted, whatever characters it holds.
pub proof fn law_shell_quote_round_trip(value: Seq<char>)
    ensures
        shell_read(shell_quote_spec(value)) == Some(value),
{
    let esc = seq!['\'', '\\', '\'', '\''];
    let body = replace_char(value, '\'', esc);
    let init = ShellReader { text: Seq::empty(), mode: 0, ok: true };
    let q = shell_quote_spec(value);
    assert(q == seq!['\''] + body + seq!['\'']);
    lemma_shell_run_concat(init, seq!['\''] + body, seq!['\'']);
    lemma_shell_run_concat(init, seq!['\''], body);
    reveal_with_fuel(shell_run, 2);
    assert(seq!['\''].drop_last() =~= Seq::<char>::empty());
    assert(shell_run(init, seq!['\'']) == (ShellReader { text: Seq::empty(), mode: 1, ok: true }));
    lemma_shell_quoted_body(value);
}

/// Reading words separated by spaces the way a POSIX shell does, as far as single quotes and
/// backslashes go: the words ended so far, the one being read, and whether one is being read.
/// A space outside quotes ends the word being read; more of them in a row are skipped.
pub struct ShellLineReader {
    pub words: Seq<Seq<char>>,
    pub current: ShellReader,
    pub started: bool,
}

/// The reader of a single shell word before it has read anything.
pub open spec fn fresh_shell_word() -> ShellReader {
    ShellReader { text: Seq::empty(), mode: 0, ok: true }
}

pub open spec fn shell_line_step(r: ShellLineReader, c: char) -> ShellLineReader {
    if c == ' ' && r.current.mode == 0 {
        if r.started {
            ShellLineReader { words: r.words.push(r.current.text), current: fresh_shell_word(), started: false }
        } else {
            r
        }
    } else {
        ShellLineReader { current: shell_step(r.current, c), started: true, ..r }
    }
}

pub open spec fn shell_line_run(r: ShellLineReader, s: Seq<char>) -> ShellLineReader
    decreases s.len(),
{
    if s.len() == 0 {
        r
    } else {
        shell_line_step(shell_line_run(r, s.drop_last()), s.last())
    }
}

/// The words a POSIX shell reads from `s`.
pub open spec fn shell_words_read(s: Seq<char>) -> Seq<Seq<char>> {
    let r = shell_line_run(ShellLineReader { words: Seq::empty(), current: fresh_shell_word(), started: false }, s);
    if r.started {
        r.words.push(r.current.text)
    } else {
        r.words
    }
}

pub proof fn lemma_shell_line_concat(r: ShellLineReader, a: Seq<char>, b: Seq<char>)
    ensures
        shell_line_run(r, a + b) == shell_line_run(shell_line_run(r, a), b),
    decreases b.len(),
{
    if b.len() == 0 {
        assert(a + b =~= a);
    } else {
        lemma_shell_line_concat(r, a, b.drop_last());
        assert((a + b).drop_last() =~= a + b.drop_last());
        assert((a + b).last() == b.last());
    }
}

proof fn lemma_shell_not_ok_stays(r: ShellReader, s: Seq<char>)
    requires
        !r.ok,
    ensures
        shell_run(r, s) == r,
    decreases s.len(),
{
    if s.len() > 0 {
        lemma_shell_not_ok_stays(r, s.drop_last());
    }
}

/// Text that the word reader reads without its word ending is read by the line reader into
/// the word being read.
pub proof fn lemma_shell_line_within_word(r: ShellLineReader, s: Seq<char>)
    requires
        r.current.ok,
        shell_run(r.current, s).ok,
    ensures
        shell_line_run(r, s) == (ShellLineReader {
            current: shell_run(r.current, s),
            started: r.started || s.len() > 0,
            ..r
        }),
    decreases s.len(),
{
    if s.len() > 0 {
        let prefix = s.drop_last();
        let before = shell_run(r.current, prefix);
        if !before.ok {
            lemma_shell_not_ok_stays(before, seq![s.last()]);
            reveal_with_fuel(shell_run, 2);
            assert(seq![s.last()].drop_last() =~= Seq::<char>::empty());
            assert(shell_run(before, seq![s.last()]) == shell_step(before, s.last()));
        }
        lemma_shell_line_within_word(r, prefix);
    }
}

/// Replacing a character distributes over concatenation.
pub proof fn lemma_replace_char_concat(x: Seq<char>, y: Seq<char>, c: char, r: Seq<char>)
    ensures
        replace_char(x + y, c, r) == replace_char(x, c, r) + replace_char(y, c, r),
    decreases y.len(),
{
    if y.len() == 0 {
        assert(x + y =~= x);
        assert(replace_char(x, c, r) + Seq::<char>::empty() =~= replace_char(x, c, r));
    } else {
        lemma_replace_char_concat(x, y.drop_last(), c, r);
        assert((x + y).drop_last() =~= x + y.drop_last());
        assert((x + y).last() == y.last());
        let piece = if y.last() == c { r } else { seq![y.last()] };
        assert(replace_char(x, c, r) + replace_char(y.drop_last(), c, r) + piece =~= replace_char(x, c, r) + (
        replace_char(y.drop_last(), c, r) + piece));
    }
}

/// Reading an AppleScript string literal: the text so far, where the reader is (0 before the
/// opening quote, 1 inside, 2 just after a backslash inside, 3 after the closing quote), and
/// whether all was a literal of this form (escapes other than `\\` and `\"` are not modelled).
pub struct AppleScriptReader {
    pub text: Seq<char>,
    pub mode: int,
    pub ok: bool,
}

pub open spec fn apple_step(r: AppleScriptReader, c: char) -> AppleScriptReader {
    if !r.ok {
        r
    } else if r.mode == 0 {
        if c == '"' {
            AppleScriptReader { mode: 1, ..r }
        } else {
            AppleScriptReader { ok: false, ..r }
        }
    } else if r.mode == 1 {
        if c == '"' {
            AppleScriptReader { mode: 3, ..r }
        } else if c == '\\' {
            AppleScriptReader { mode: 2, ..r }
        } else {
            AppleScriptReader { text: r.text.push(c), ..r }
        }
    } else if r.mode == 2 {
        if c == '\\' || c == '"' {
            AppleScriptReader { text: r.text.push(c), mode: 1, ..r }
        } else {
            AppleScriptReader { ok: false, ..r }
        }
    } else {
        AppleScriptReader { ok: false, ..r }
    }
}

pub open spec fn apple_run(r: AppleScriptReader, s: Seq<char>) -> AppleScriptReader
    decreases s.len(),
{
    if s.len() == 0 {
        r
    } else {
        apple_step(apple_run(r, s.drop_last()), s.last())
    }
}

/// The string that the AppleScript literal `s` denotes, when `s` is one such literal.
pub open spec fn apple_script_read(s: Seq<char>) -> Option<Seq<char>> {
    let r = apple_run(AppleScriptReader { text: Seq::empty(), mode: 0, ok: true }, s);
    if r.ok && r.mode == 3 {
        Some(r.text)
    } else {
        None
    }
}

proof fn lemma_apple_run_concat(r: AppleScriptReader, a: Seq<char>, b: Seq<char>)
    ensures
        apple_run(r, a + b) == apple_run(apple_run(r, a), b),
    decreases b.len(),
{
    if b.len() == 0 {
        assert(a + b =~= a);
    } else {
        lemma_apple_run_concat(r, a, b.drop_last());
        assert((a + b).drop_last() =~= a + b.drop_last());
        assert((a + b).last() == b.last());
    }
}

/// The escaped text of `value`.
pub open spec fn apple_escaped(value: Seq<char>) -> Seq<char> {
    replace_char(replace_char(value, '\\', seq!['\\', '\\']), '"', seq!['\\', '"'])
}

proof fn lemma_apple_body(value: Seq<char>)
    ensures
        apple_run(AppleScriptReader { text: Seq::empty(), mode: 1, ok: true }, apple_escaped(value))
            == (AppleScriptReader { text: value, mode: 1, ok: true }),
    decreases value.len(),
{
    let start = AppleScriptReader { text: Seq::empty(), mode: 1, ok: true };
    let bs = seq!['\\', '\\'];
    let qt = seq!['\\', '"'];
    if value.len() == 0 {
        assert(value =~= Seq::<char>::empty());
    } else {
        let prefix = value.drop_last();
        let c = value.last();
        lemma_apple_body(prefix);
        let p1 = if c == '\\' { bs } else { seq![c] };
        assert(replace_char(value, '\\', bs) == replace_char(prefix, '\\', bs) + p1);
        lemma_replace_char_concat(replace_char(prefix, '\\', bs), p1, '"', qt);
        let p2 = replace_char(p1, '"', qt);
        let mid = AppleScriptReader { text: prefix, mode: 1, ok: true };
        lemma_apple_run_concat(start, apple_escaped(prefix), p2);
        reveal_with_fuel(replace_char, 3);
        reveal_with_fuel(apple_run, 3);
        if c == '\\' {
            assert(p1.drop_last() =~= seq!['\\']);
            assert(seq!['\\'].drop_last() =~= Seq::<char>::empty());
            assert(p2 =~= bs);
            assert(bs.drop_last() =~= seq!['\\']);
        } else if c == '"' {
            assert(p1.drop_last() =~= Seq::<char>::empty());
            assert(p2 =~= qt);
            assert(qt.drop_last() =~= seq!['\\']);
            assert(seq!['\\'].drop_last() =~= Seq::<char>::empty());
        } else {
            assert(p1.drop_last() =~= Seq::<char>::empty());
            assert(p2 =~= seq![c]);
        }
        assert(prefix.push(c) =~= value);
    }
}

/// Law: AppleScript reads the literal that `apple_script_quote` gives as exactly the
/// value that was quoted, whatever characters it holds.
pub proof fn law_apple_script_quote_round_trip(value: Seq<char>)
    ensures
        apple_script_read(apple_script_quote_spec(value)) == Some(value),
{
    let init = AppleScriptReader { text: Seq::empty(), mode: 0, ok: true };
    let body = apple_escaped(value);
    let q = apple_script_quote_spec(value);
    assert(q == seq!['"'] + body + seq!['"']);
    lemma_apple_run_concat(init, seq!['"'] + body, seq!['"']);
    lemma_apple_run_concat(init, seq!['"'], body);
    reveal_with_fuel(apple_run, 2);
    assert(seq!['"'].drop_last() =~= Seq::<char>::empty());
    lemma_apple_body(value);
}

/// Reading one argument of a Windows command line as `CommandLineToArgvW` does: the text
/// so far, whether the reader is inside quotes, the backslashes read but not yet placed, and
/// whether the argument has not ended (a space or tab outside quotes would end it).
pub struct WindowsArgReader {
    pub text: Seq<char>,
    pub in_quotes: bool,
    pub pending: nat,
    pub ok: bool,
}

/// Backslashes are literal unless they come before a quote: then each pair gives one
/// backslash, and an odd one makes the quote literal instead of opening or closing quotes.
pub open spec fn windows_arg_step(r: WindowsArgReader, c: char) -> WindowsArgReader {
    if !r.ok {
        r
    } else if c == '\\' {
        WindowsArgReader { pending: r.pending + 1, ..r }
    } else if c == '"' {
        let text = r.text + backslashes(r.pending / 2);
        if r.pending % 2 == 1 {
            WindowsArgReader { text: text.push('"'), pending: 0, ..r }
        } else {
            WindowsArgReader { text: text, in_quotes: !r.in_quotes, pending: 0, ..r }
        }
    } else if (c == ' ' || c == '\t') && !r.in_quotes {
        WindowsArgReader { text: r.text + backslashes(r.pending), pending: 0, ok: false, ..r }
    } else {
        WindowsArgReader { text: (r.text + backslashes(r.pending)).push(c), pending: 0, ..r }
    }
}

pub open spec fn windows_arg_run(r: WindowsArgReader, s: Seq<char>) -> WindowsArgReader
    decreases s.len(),
{
    if s.len() == 0 {
        r
    } else {
        windows_arg_step(windows_arg_run(r, s.drop_last()), s.last())
    }
}

/// The argument that a Windows program reads from `s`, when `s` is exactly one argument.
pub open spec fn windows_arg_read(s: Seq<char>) -> Option<Seq<char>> {
    let r = windows_arg_run(WindowsArgReader { text: Seq::empty(), in_quotes: false, pending: 0, ok: true }, s);
    if r.ok && !r.in_quotes {
        Some(r.text + backslashes(r.pending))
    } else {
        None
    }
}

proof fn lemma_windows_run_concat(r: WindowsArgReader, a: Seq<char>, b: Seq<char>)
    ensures
        windows_arg_run(r, a + b) == windows_arg_run(windows_arg_run(r, a), b),
    decreases b.len(),
{
    if b.len() == 0 {
        assert(a + b =~= a);
    } else {
        lemma_windows_run_concat(r, a, b.drop_last());
        assert((a + b).drop_last() =~= a + b.drop_last());
        assert((a + b).last() == b.last());
    }
}

proof fn lemma_windows_run_backslashes(r: WindowsArgReader, k: nat)
    requires
        r.ok,
    ensures
        windows_arg_run(r, backslashes(k)) == (WindowsArgReader { pending: r.pending + k, ..r }),
    decreases k,
{
    if k == 0 {
        assert(backslashes(0) =~= Seq::<char>::empty());
    } else {
        lemma_windows_run_backslashes(r, (k - 1) as nat);
        assert(backslashes(k).drop_last() =~= backslashes((k - 1) as nat));
    }
}

/// Text with no quote, space or tab reads back unchanged outside quotes.
proof fn lemma_windows_plain(s: Seq<char>)
    requires
        forall|i: int| 0 <= i < s.len() ==> s[i] != '"' && s[i] != ' ' && s[i] != '\t',
    ensures
        ({
            let r = windows_arg_run(WindowsArgReader { text: Seq::empty(), in_quotes: false, pending: 0, ok: true }, s);
            r.ok && !r.in_quotes && r.text + backslashes(r.pending) == s
        }),
    decreases s.len(),
{
    let init = WindowsArgReader { text: Seq::empty(), in_quotes: false, pending: 0, ok: true };
    if s.len() == 0 {
        assert(Seq::<char>::empty() + backslashes(0) =~= s);
    } else {
        let prefix = s.drop_last();
        assert forall|i: int| 0 <= i < prefix.len() implies prefix[i] != '"' && prefix[i] != ' ' && prefix[i] != '\t' by {
            assert(prefix[i] == s[i]);
        }
        lemma_windows_plain(prefix);
        let r = windows_arg_run(init, prefix);
        let c = s.last();
        if c == '\\' {
            assert(backslashes(r.pending + 1) =~= backslashes(r.pending).push('\\'));
            assert(r.text + backslashes(r.pending + 1) =~= (r.text + backslashes(r.pending)).push(c));
        }
        assert(prefix.push(c) =~= s);
    }
}

/// One character after the body of `prefix`: a quote or any character other than a
/// backslash places the pending backslashes and itself.
proof fn lemma_windows_quoted_step(prefix: Seq<char>, out: Seq<char>, b: nat, c: char)
    requires
        c != '\\',
        b <= prefix.len(),
        windows_arg_run(WindowsArgReader { text: Seq::empty(), in_quotes: true, pending: 0, ok: true }, out)
            == (WindowsArgReader { text: prefix.subrange(0, prefix.len() - b), in_quotes: true, pending: 0, ok: true }),
        prefix.subrange(prefix.len() - b, prefix.len() as int) == backslashes(b),
    ensures
        ({
            let piece = if c == '"' {
                backslashes(2 * b + 1) + seq!['"']
            } else {
                backslashes(b) + seq![c]
            };
            windows_arg_run(WindowsArgReader { text: Seq::empty(), in_quotes: true, pending: 0, ok: true }, out + piece)
                == (WindowsArgReader { text: prefix.push(c), in_quotes: true, pending: 0, ok: true })
        }),
{
    let start = WindowsArgReader { text: Seq::empty(), in_quotes: true, pending: 0, ok: true };
    let n = prefix.len() as int;
    let mid = WindowsArgReader { text: prefix.subrange(0, n - b), in_quotes: true, pending: 0, ok: true };
    assert(prefix.subrange(0, n - b) + backslashes(b) =~= prefix);
    let k: nat = if c == '"' { 2 * b + 1 } else { b };
    let piece = backslashes(k) + seq![c];
    lemma_windows_run_concat(start, out, piece);
    lemma_windows_run_concat(mid, backslashes(k), seq![c]);
    lemma_windows_run_backslashes(mid, k);
    assert(seq![c].drop_last() =~= Seq::<char>::empty());
    reveal_with_fuel(windows_arg_run, 2);
    assert(windows_arg_run(WindowsArgReader { pending: k, ..mid }, seq![c]) == windows_arg_step(
        WindowsArgReader { pending: k, ..mid },
        c,
    ));
    if c == '"' {
        assert((2 * b + 1) / 2 == b);
        assert((2 * b + 1) % 2 == 1);
    }
    assert((prefix.subrange(0, n - b) + backslashes(b)).push(c) =~= prefix.push(c));
}

/// The body of a quoted argument, read inside quotes, gives the value without the
/// backslashes still pending at its end.
proof fn lemma_windows_quoted_body(s: Seq<char>)
    ensures
        ({
            let (out, b) = win_quote_scan(s);
            &&& b <= s.len()
            &&& windows_arg_run(WindowsArgReader { text: Seq::empty(), in_quotes: true, pending: 0, ok: true }, out)
                == (WindowsArgReader { text: s.subrange(0, s.len() - b), in_quotes: true, pending: 0, ok: true })
            &&& s.subrange(s.len() - b, s.len() as int) == backslashes(b)
        }),
    decreases s.len(),
{
    if s.len() == 0 {
        assert(s.subrange(0, 0) =~= Seq::<char>::empty());
        assert(backslashes(0) =~= Seq::<char>::empty());
    } else {
        let prefix = s.drop_last();
        let c = s.last();
        lemma_windows_quoted_body(prefix);
        let (out, b) = win_quote_scan(prefix);
        let n = prefix.len() as int;
        if c == '\\' {
            assert(win_quote_scan(s) == (out, b + 1));
            assert(s.subrange(0, s.len() - (b + 1)) =~= prefix.subrange(0, n - b));
            assert(s.subrange(s.len() - (b + 1), s.len() as int) =~= prefix.subrange(n - b, n).push('\\'));
            assert(backslashes(b + 1) =~= backslashes(b).push('\\'));
        } else {
            lemma_windows_quoted_step(prefix, out, b, c);
            let piece = if c == '"' {
                backslashes(2 * b + 1) + seq!['"']
            } else {
                backslashes(b) + seq![c]
            };
            assert(win_quote_scan(s) == (out + piece, 0nat));
            assert(prefix.push(c) =~= s);
            assert(s.subrange(0, s.len() - 0) =~= s);
            assert(s.subrange(s.len() as int, s.len() as int) =~= backslashes(0));
        }
    }
}

/// Law: a Windows program reads the text that `quote_windows_arg` gives as exactly one
/// argument, the value that was quoted, whatever characters it holds.
pub proof fn law_quote_windows_arg_round_trip(value: Seq<char>)
    ensures
        windows_arg_read(quote_windows_arg_spec(value)) == Some(value),
{
    let init = WindowsArgReader { text: Seq::empty(), in_quotes: false, pending: 0, ok: true };
    let q = quote_windows_arg_spec(value);
    if value.len() == 0 {
        reveal_with_fuel(windows_arg_run, 3);
        assert(q.drop_last() =~= seq!['"']);
        assert(seq!['"'].drop_last() =~= Seq::<char>::empty());
        assert(backslashes(0) =~= Seq::<char>::empty());
        assert(value =~= Seq::<char>::empty() + backslashes(0) + backslashes(0));
    } else if !needs_quotes(value) {
        assert forall|i: int| 0 <= i < value.len() implies value[i] != '"' && value[i] != ' ' && value[i] != '\t' by {
            if value[i] == ' ' || value[i] == '\t' {
                assert(is_ws(value[i]));
            }
        }
        lemma_windows_plain(value);
    } else {
        let (out, b) = win_quote_scan(value);
        lemma_windows_quoted_body(value);
        let opened = WindowsArgReader { text: Seq::empty(), in_quotes: true, pending: 0, ok: true };
        assert(q == seq!['"'] + out + backslashes(2 * b) + seq!['"']);
        lemma_windows_run_concat(init, seq!['"'] + out + backslashes(2 * b), seq!['"']);
        lemma_windows_run_concat(init, seq!['"'] + out, backslashes(2 * b));
        lemma_windows_run_concat(init, seq!['"'], out);
        reveal_with_fuel(windows_arg_run, 2);
        assert(seq!['"'].drop_last() =~= Seq::<char>::empty());
        assert(windows_arg_run(init, seq!['"']) == opened);
        let n = value.len() as int;
        let mid = WindowsArgReader { text: value.subrange(0, n - b), in_quotes: true, pending: 0, ok: true };
        lemma_windows_run_backslashes(mid, 2 * b);
        assert((2 * b) / 2 == b);
        assert((2 * b) % 2 == 0);
        assert(value.subrange(0, n - b) + backslashes(b) =~= value);
        assert(value + backslashes(0) =~= value);
    }
}

/// The reader of a single Windows argument before it has read anything.
pub open spec fn fresh_windows_arg() -> WindowsArgReader {
    WindowsArgReader { text: Seq::empty(), in_quotes: false, pending: 0, ok: true }
}

/// The text of an argument that a reader has read, with its pending backslashes placed.
pub open spec fn windows_arg_text(r: WindowsArgReader) -> Seq<char> {
    r.text + backslashes(r.pending)
}

/// Reading a Windows command line into arguments as `CommandLineToArgvW` reads those after
/// the program name: the arguments ended so far, the one being read, and whether one is
/// being read. A space or tab outside quotes ends the argument being read; more of them in a
/// row are skipped.
pub struct WindowsLineReader {
    pub args: Seq<Seq<char>>,
    pub current: WindowsArgReader,
    pub started: bool,
}

pub open spec fn windows_line_step(r: WindowsLineReader, c: char) -> WindowsLineReader {
    if (c == ' ' || c == '\t') && !r.current.in_quotes {
        if r.started {
            WindowsLineReader {
                args: r.args.push(windows_arg_text(r.current)),
                current: fresh_windows_arg(),
                started: false,
            }
        } else {
            r
        }
    } else {
        WindowsLineReader { current: windows_arg_step(r.current, c), started: true, ..r }
    }
}

pub open spec fn windows_line_run(r: WindowsLineReader, s: Seq<char>) -> WindowsLineReader
    decreases s.len(),
{
    if s.len() == 0 {
        r
    } else {
        windows_line_step(windows_line_run(r, s.drop_last()), s.last())
    }
}

/// The arguments that a Windows program reads from the command-line text `s` that follows
/// its name.
pub open spec fn windows_line_read(s: Seq<char>) -> Seq<Seq<char>> {
    let r = windows_line_run(
        WindowsLineReader { args: Seq::empty(), current: fresh_windows_arg(), started: false },
        s,
    );
    if r.started {
        r.args.push(windows_arg_text(r.current))
    } else {
        r.args
    }
}

proof fn lemma_windows_line_concat(r: WindowsLineReader, a: Seq<char>, b: Seq<char>)
    ensures
        windows_line_run(r, a + b) == windows_line_run(windows_line_run(r, a), b),
    decreases b.len(),
{
    if b.len() == 0 {
        assert(a + b =~= a);
    } else {
        lemma_windows_line_concat(r, a, b.drop_last());
        assert((a + b).drop_last() =~= a + b.drop_last());
        assert((a + b).last() == b.last());
    }
}

proof fn lemma_windows_arg_not_ok_stays(r: WindowsArgReader, s: Seq<char>)
    requires
        !r.ok,
    ensures
        windows_arg_run(r, s) == r,
    decreases s.len(),
{
    if s.len() > 0 {
        lemma_windows_arg_not_ok_stays(r, s.drop_last());
    }
}

/// Text that the argument reader reads without its argument ending is read by the line
/// reader into the argument being read.
proof fn lemma_windows_line_within_arg(r: WindowsLineReader, s: Seq<char>)
    requires
        r.current.ok,
        windows_arg_run(r.current, s).ok,
    ensures
        windows_line_run(r, s) == (WindowsLineReader {
            current: windows_arg_run(r.current, s),
            started: r.started || s.len() > 0,
            ..r
        }),
    decreases s.len(),
{
    if s.len() > 0 {
        let prefix = s.drop_last();
        let before = windows_arg_run(r.current, prefix);
        if !before.ok {
            lemma_windows_arg_not_ok_stays(before, seq![s.last()]);
            reveal_with_fuel(windows_arg_run, 2);
            assert(seq![s.last()].drop_last() =~= Seq::<char>::empty());
            assert(windows_arg_run(before, seq![s.last()]) == windows_arg_step(before, s.last()));
        }
        lemma_windows_line_within_arg(r, prefix);
    }
}

/// The quoted form of an argument is never empty.
proof fn lemma_quoted_not_empty(value: Seq<char>)
    ensures
        quote_windows_arg_spec(value).len() > 0,
{
}

/// Reading the quoted arguments joined by spaces leaves all but the last argument ended
/// and the last one read.
proof fn lemma_windows_line_joined(args: Seq<Seq<char>>)
    requires
        args.len() > 0,
    ensures
        windows_line_run(
            WindowsLineReader { args: Seq::empty(), current: fresh_windows_arg(), started: false },
            quote_windows_args_spec(args),
        ) == (WindowsLineReader {
            args: args.drop_last(),
            current: windows_arg_run(fresh_windows_arg(), quote_windows_arg_spec(args.last())),
            started: true,
        }),
    decreases args.len(),
{
    let init = WindowsLineReader { args: Seq::empty(), current: fresh_windows_arg(), started: false };
    let qs = args.map_values(|a: Seq<char>| quote_windows_arg_spec(a));
    let q = quote_windows_arg_spec(args.last());
    law_quote_windows_arg_round_trip(args.last());
    lemma_quoted_not_empty(args.last());
    if args.len() == 1 {
        assert(quote_windows_args_spec(args) == q);
        lemma_windows_line_within_arg(init, q);
        assert(args.drop_last() =~= Seq::<Seq<char>>::empty());
    } else {
        let prefix = args.drop_last();
        assert(qs.drop_last() =~= prefix.map_values(|a: Seq<char>| quote_windows_arg_spec(a)));
        assert(quote_windows_args_spec(args) == quote_windows_args_spec(prefix) + seq![' '] + q);
        lemma_windows_line_joined(prefix);
        let mid = windows_line_run(init, quote_windows_args_spec(prefix));
        law_quote_windows_arg_round_trip(prefix.last());
        lemma_windows_line_concat(init, quote_windows_args_spec(prefix) + seq![' '], q);
        lemma_windows_line_concat(init, quote_windows_args_spec(prefix), seq![' ']);
        reveal_with_fuel(windows_line_run, 2);
        assert(seq![' '].drop_last() =~= Seq::<char>::empty());
        let after_space = windows_line_run(mid, seq![' ']);
        assert(after_space == windows_line_step(mid, ' '));
        assert(after_space.args =~= prefix);
        lemma_windows_line_within_arg(after_space, q);
    }
}

/// Law: a Windows program started with the command line that `quote_windows_args` gives
/// reads back exactly the arguments that were quoted, however many there are and whatever
/// characters they hold.
pub proof fn law_quote_windows_args_round_trip(args: Seq<Seq<char>>)
    ensures
        windows_line_read(quote_windows_args_spec(args)) == args,
{
    if args.len() == 0 {
        assert(quote_windows_args_spec(args) =~= Seq::<char>::empty());
    } else {
        lemma_windows_line_joined(args);
        law_quote_windows_arg_round_trip(args.last());
        assert(args.drop_last().push(args.last()) =~= args);
    }
}

} // verus!
