//! Text that is typed on the device.
use vstd::prelude::*;
use crate::text;
use crate::text::texts;

verus! {

/// A text quoted for a shell.
pub open spec fn shell_quoted(s: Seq<char>) -> Seq<char> {
    "'"@ + text::replaced(s, '\'', "'\\''"@) + "'"@
}

/// Quotes for the device's shell.
///
/// `adb shell` joins its arguments into one string and hands it to sh on the device, so
/// an unquoted space would split the text into separate arguments and `$`, backticks or
/// `;` would be interpreted there rather than typed.
pub fn device_quote(text: &str) -> (r: String)
    ensures
        r@ == shell_quoted(text@),
{
    let mut out: String = "'".to_owned();
    let inner = text::replace_char(text, '\'', "'\\''");
    out.append(inner.as_str());
    out.append("'");
    out
}

fn is_ascii_text(s: &str) -> (r: bool)
    ensures
        r == text::all_ascii(s@),
{
    let chars = text::chars_of(s);
    for i in 0..chars.len()
        invariant
            chars@ == s@,
            forall|j: int| 0 <= j < i ==> #[trigger] s@[j] <= '\u{7f}',
    {
        if chars[i] > '\u{7f}' {
            assert(!(s@[i as int] <= '\u{7f}'));
            return false;
        }
    }
    true
}

/// Why a text cannot be typed, where it cannot.
pub open spec fn refusal(s: Seq<char>) -> Option<Seq<char>> {
    if s.len() == 0 {
        Some("nothing to type, the clipboard is empty"@)
    } else if !text::all_ascii(s) {
        Some(
            "`input text` only handles ASCII and this has other characters in it; use `wsctl android mirror` and Cmd+V instead"@,
        )
    } else {
        None
    }
}

/// The arguments of the adb command that types `text` into whatever field is focused on
/// the device, or why it cannot be typed.
///
/// These are synthetic keystrokes, not a clipboard write. `input text` maps characters
/// through a US key character map, so anything outside ASCII is silently dropped or
/// mangled there: a wrong phone number is worse than a refusal.
pub fn type_text(serial: &str, text: &str) -> (r: Result<Vec<String>, String>)
    ensures
        match (r, refusal(text@)) {
            (Ok(args), None) => texts(args@) == seq![
                "-s"@,
                serial@,
                "shell"@,
                "input"@,
                "text"@,
                shell_quoted(text@),
            ],
            (Err(e), Some(why)) => e@ == why,
            _ => false,
        },
{
    if text.is_empty() {
        return Err("nothing to type, the clipboard is empty".to_owned());
    }
    if !is_ascii_text(text) {
        return Err(
            "`input text` only handles ASCII and this has other characters in it; use `wsctl android mirror` and Cmd+V instead".to_owned(),
        );
    }
    let quoted = device_quote(text);
    let args: Vec<String> = vec![
        "-s".to_owned(),
        serial.to_owned(),
        "shell".to_owned(),
        "input".to_owned(),
        "text".to_owned(),
        quoted,
    ];
    assert(texts(args@) =~= seq![
        "-s"@,
        serial@,
        "shell"@,
        "input"@,
        "text"@,
        shell_quoted(text@),
    ]);
    Ok(args)
}

/// Where a shell stands in a word that holds nothing but quoted and escaped characters.
pub ghost enum Shell {
    /// Outside quotes, with the characters read so far.
    Open(Seq<char>),
    /// Between single quotes.
    Quoted(Seq<char>),
    /// Behind a backslash.
    Escaped(Seq<char>),
    /// Something outside quotes was left for the shell to interpret.
    Interpreted,
}

/// One character further.
pub open spec fn shell_step(at: Shell, c: char) -> Shell {
    match at {
        Shell::Open(out) => if c == '\'' {
            Shell::Quoted(out)
        } else if c == '\\' {
            Shell::Escaped(out)
        } else {
            Shell::Interpreted
        },
        Shell::Quoted(out) => if c == '\'' {
            Shell::Open(out)
        } else {
            Shell::Quoted(out.push(c))
        },
        Shell::Escaped(out) => Shell::Open(out.push(c)),
        Shell::Interpreted => Shell::Interpreted,
    }
}

/// Where the shell stands behind a text.
pub open spec fn shell_reads(s: Seq<char>) -> Shell
    decreases s.len(),
{
    if s.len() == 0 {
        Shell::Open(Seq::empty())
    } else {
        shell_step(shell_reads(s.drop_last()), s.last())
    }
}

proof fn lemma_shell_push(s: Seq<char>, c: char)
    ensures
        shell_reads(s.push(c)) == shell_step(shell_reads(s), c),
{
    assert(s.push(c).drop_last() =~= s);
}

proof fn lemma_inside_quotes(s: Seq<char>)
    ensures
        shell_reads("'"@ + text::replaced(s, '\'', "'\\''"@)) == Shell::Quoted(s),
    decreases s.len(),
{
    reveal_strlit("'");
    reveal_strlit("'\\''");
    let none = Seq::<char>::empty();
    if s.len() == 0 {
        lemma_shell_push(none, '\'');
        assert("'"@ + text::replaced(s, '\'', "'\\''"@) =~= none.push('\''));
        assert(s =~= none);
    } else {
        let rest = s.drop_last();
        let c = s.last();
        lemma_inside_quotes(rest);
        let before = "'"@ + text::replaced(rest, '\'', "'\\''"@);
        let now = "'"@ + text::replaced(s, '\'', "'\\''"@);
        assert(rest.push(c) =~= s);
        if c == '\'' {
            assert(now =~= before.push('\'').push('\\').push('\'').push('\''));
            lemma_shell_push(before, '\'');
            lemma_shell_push(before.push('\''), '\\');
            lemma_shell_push(before.push('\'').push('\\'), '\'');
            lemma_shell_push(before.push('\'').push('\\').push('\''), '\'');
        } else {
            assert(now =~= before.push(c));
            lemma_shell_push(before, c);
        }
    }
}

/// A shell reads a quoted text back as that text, whatever it holds, and is left nothing
/// to interpret.
pub proof fn law_a_shell_reads_back_what_was_quoted(s: Seq<char>)
    ensures
        shell_reads(shell_quoted(s)) == Shell::Open(s),
{
    reveal_strlit("'");
    lemma_inside_quotes(s);
    let before = "'"@ + text::replaced(s, '\'', "'\\''"@);
    lemma_shell_push(before, '\'');
    assert(shell_quoted(s) =~= before.push('\''));
}

/// A text is typed exactly where there is any and all of it is ASCII.
pub proof fn law_only_ascii_is_typed(s: Seq<char>)
    ensures
        refusal(s) is None <==> s.len() > 0 && forall|i: int|
            0 <= i < s.len() ==> #[trigger] s[i] <= '\u{7f}',
{
}

} // verus!
