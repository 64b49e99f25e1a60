//! What is shown to the user: the list of profiles and the message after a
//! switch. Colour is applied by the `colored` crate, which decides from the
//! environment whether to emit escape codes.

use crate::input::{all_digits, digits_value, is_digit, selection};
use crate::profile::{Config, Profile, ProfileView};
use crate::text::{contains, lemma_leading_is, lemma_trailing_is, occurs_at, texts, trimmed};
use vstd::prelude::*;
use vstd::string::StringExecFns;

verus! {

/// `out` is `text` as `colored` writes it in the colour with the given
/// number: either `text` itself, when colours are off, or `text` between the
/// escape code of the colour and the reset code. Of a text that itself holds
/// a reset code nothing is said.
pub open spec fn painted_as(text: Seq<char>, colour: Seq<char>, out: Seq<char>) -> bool {
    ||| contains(text, "\x1B[0m"@)
    ||| out == text
    ||| out == "\x1B["@ + colour + "m"@ + text + "\x1B[0m"@
}

/// `colored::Colorize::green` on a string slice, written out with
/// `to_string`. The result is the text itself when colours are off, and
/// otherwise the text between `ESC[32m` and `ESC[0m`, provided the text holds
/// no reset code of its own.
#[verifier::external_body]
fn paint_green(text: &str) -> (painted: String)
    ensures
        painted_as(text@, "32"@, painted@),
{
    colored::Colorize::green(text).to_string()
}

/// `colored::Colorize::blue` on a string slice, written out with
/// `to_string`. The result is the text itself when colours are off, and
/// otherwise the text between `ESC[34m` and `ESC[0m`, provided the text holds
/// no reset code of its own.
#[verifier::external_body]
fn paint_blue(text: &str) -> (painted: String)
    ensures
        painted_as(text@, "34"@, painted@),
{
    colored::Colorize::blue(text).to_string()
}

/// The marker shown after a profile: nothing for a profile that is not
/// current, and ` (current)`, plain or in green, for the current one.
pub open spec fn is_marker(current: bool, marker: Seq<char>) -> bool {
    if current {
        marker == " (current)"@ || marker == "\x1B["@ + "32"@ + "m"@ + " (current)"@ + "\x1B[0m"@
    } else {
        marker.len() == 0
    }
}

/// The first line of a profile's entry in the list.
pub open spec fn entry_heading(p: ProfileView, marker: Seq<char>) -> Seq<char> {
    "\u{2022} "@ + p.name + " <"@ + p.email + ">"@ + marker
}

/// The second line of a profile's entry in the list.
pub open spec fn entry_key(p: ProfileView) -> Seq<char> {
    "  SSH Key: "@ + p.ssh_key
}

/// The message after a switch to `p`, with the name written as `name`.
pub open spec fn switch_text(p: ProfileView, name: Seq<char>) -> Seq<char> {
    "Switched to profile: "@ + name + " ("@ + p.email + ")"@
}

/// The first line of a profile's entry: see [`entry_heading`].
pub fn profile_heading(profile: &Profile, marker: &str) -> (line: String)
    ensures
        line@ == entry_heading(profile@, marker@),
{
    let mut line = String::from_str("\u{2022} ");
    line.append(profile.name.as_str());
    line.append(" <");
    line.append(profile.email.as_str());
    line.append(">");
    line.append(marker);
    line
}

/// The second line of a profile's entry: see [`entry_key`].
pub fn profile_key_line(profile: &Profile) -> (line: String)
    ensures
        line@ == entry_key(profile@),
{
    let mut line = String::from_str("  SSH Key: ");
    line.append(profile.ssh_key.as_str());
    line
}

/// The marker for a profile: see [`is_marker`].
pub fn marker_for(profile: &Profile) -> (marker: String)
    ensures
        is_marker(profile@.current, marker@),
{
    if profile.current {
        proof {
            reveal_strlit(" (current)");
            reveal_strlit("\x1B[0m");
            assert forall|i: int| !occurs_at(" (current)"@, "\x1B[0m"@, i) by {
                if occurs_at(" (current)"@, "\x1B[0m"@, i) {
                    assert(" (current)"@.subrange(i, i + 4)[0] == '\x1B');
                }
            }
        }
        paint_green(" (current)")
    } else {
        String::new()
    }
}

/// The line is the heading of `p` with one of the markers that `p` may have.
pub open spec fn is_heading(p: ProfileView, line: Seq<char>) -> bool {
    if p.current {
        ||| line == entry_heading(p, " (current)"@)
        ||| line == entry_heading(p, "\x1B["@ + "32"@ + "m"@ + " (current)"@ + "\x1B[0m"@)
    } else {
        line == entry_heading(p, Seq::empty())
    }
}

/// The list holds the entry of `p` as its entry number `i`, counted from 0:
/// after the title line, three lines for each entry.
pub open spec fn lists_profile(lines: Seq<Seq<char>>, i: int, p: ProfileView) -> bool {
    &&& is_heading(p, lines[3 * i + 1])
    &&& lines[3 * i + 2] == entry_key(p)
    &&& lines[3 * i + 3].len() == 0
}

/// The lines that list the store. An empty store gives one line that says
/// so. Otherwise a title line is followed by three lines for each profile,
/// in order: its heading with its marker, its key, and an empty line.
pub fn list_profiles(config: &Config) -> (lines: Vec<String>)
    ensures
        config@.len() == 0 ==> texts(lines@)
            == seq!["No profiles found. Run 'gs setup' to create your first profile."@],
        config@.len() > 0 ==> {
            &&& lines@.len() == 1 + 3 * config@.len()
            &&& texts(lines@)[0] == "=== Git Profiles ==="@
            &&& forall|i: int|
                0 <= i < config@.len() ==> lists_profile(texts(lines@), i, #[trigger] config@[i])
        },
{
    let mut lines: Vec<String> = Vec::new();
    let n = config.profiles.len();
    if n == 0 {
        let line = String::from_str("No profiles found. Run 'gs setup' to create your first profile.");
        lines.push(line);
        assert(texts(lines@) =~= seq![line@]);
        return lines;
    }
    lines.push(String::from_str("=== Git Profiles ==="));
    let mut k: usize = 0;
    while k < n
        invariant
            k <= n,
            n == config.profiles.len(),
            lines@.len() == 1 + 3 * k,
            texts(lines@)[0] == "=== Git Profiles ==="@,
            forall|i: int| 0 <= i < k ==> lists_profile(texts(lines@), i, #[trigger] config@[i]),
        decreases n - k,
    {
        let profile = &config.profiles[k];
        let marker = marker_for(profile);
        let heading = profile_heading(profile, marker.as_str());
        let key_line = profile_key_line(profile);
        let ghost before = texts(lines@);
        lines.push(heading);
        lines.push(key_line);
        lines.push(String::new());
        proof {
            let after = texts(lines@);
            assert(after =~= before + seq![heading@, key_line@, Seq::<char>::empty()]);
            assert(profile@ == config@[k as int]);
            assert(is_heading(profile@, heading@));
            assert forall|i: int| 0 <= i < k + 1 implies lists_profile(
                after,
                i,
                #[trigger] config@[i],
            ) by {
                if i < k {
                    assert(lists_profile(before, i, config@[i]));
                    assert(after[3 * i + 1] == before[3 * i + 1]);
                    assert(after[3 * i + 2] == before[3 * i + 2]);
                    assert(after[3 * i + 3] == before[3 * i + 3]);
                }
            }
        }
        k += 1;
    }
    lines
}

/// The message after a switch to `profile`, for a name already written in
/// colour or not: see [`switch_text`].
pub fn switch_line(profile: &Profile, name: &str) -> (line: String)
    ensures
        line@ == switch_text(profile@, name@),
{
    let mut line = String::from_str("Switched to profile: ");
    line.append(name);
    line.append(" (");
    line.append(profile.email.as_str());
    line.append(")");
    line
}

/// The message after a switch to `profile`: its name, plain or in blue, and
/// its email.
pub fn switch_message(profile: &Profile) -> (line: String)
    ensures
        exists|name: Seq<char>|
            painted_as(profile@.name, "34"@, name) && line@ == switch_text(profile@, name),
{
    let name = paint_blue(profile.name.as_str());
    let line = switch_line(profile, name.as_str());
    assert(painted_as(profile@.name, "34"@, name@) && line@ == switch_text(profile@, name@));
    line
}

/// The character for a digit.
pub open spec fn digit_char(d: nat) -> char {
    if d == 0 {
        '0'
    } else if d == 1 {
        '1'
    } else if d == 2 {
        '2'
    } else if d == 3 {
        '3'
    } else if d == 4 {
        '4'
    } else if d == 5 {
        '5'
    } else if d == 6 {
        '6'
    } else if d == 7 {
        '7'
    } else if d == 8 {
        '8'
    } else {
        '9'
    }
}

/// A number in base ten, without leading zeros.
pub open spec fn decimal(n: nat) -> Seq<char>
    decreases n,
{
    if n < 10 {
        seq![digit_char(n)]
    } else {
        decimal(n / 10).push(digit_char(n % 10))
    }
}

/// The line that offers profile `p` for selection under the number `number`.
/// With `mark_current`, the current profile is marked.
pub open spec fn choice_text(number: nat, p: ProfileView, mark_current: bool) -> Seq<char> {
    decimal(number) + ". "@ + p.name + " <"@ + p.email + ">"@ + if mark_current && p.current {
        " (current)"@
    } else {
        Seq::empty()
    }
}

/// The decimal notation of a number is a string of digits that denotes it.
pub proof fn lemma_decimal_denotes(n: nat)
    ensures
        decimal(n).len() > 0,
        all_digits(decimal(n)),
        digits_value(decimal(n)) == n,
    decreases n,
{
    let s = decimal(n);
    assert forall|d: nat| d < 10 implies (#[trigger] digit_char(d)) as u32 - 48 == d by {}
    if n < 10 {
        assert(s.drop_last() =~= Seq::<char>::empty());
        assert(s.last() == digit_char(n));
        assert(digits_value(s) == 10 * digits_value(s.drop_last()) + ((s.last() as u32 - 48) as nat));
    } else {
        lemma_decimal_denotes(n / 10);
        assert(s.drop_last() =~= decimal(n / 10));
        assert(s.last() == digit_char(n % 10));
        assert(digits_value(s) == 10 * digits_value(s.drop_last()) + ((s.last() as u32 - 48) as nat));
        assert forall|i: int| 0 <= i < s.len() implies is_digit(#[trigger] s[i]) by {
            if i < s.len() - 1 {
                assert(s[i] == decimal(n / 10)[i]);
            }
        }
    }
}

/// The number under which a profile is offered selects that profile: the
/// decimal notation of `i + 1` selects position `i` in a store that has it.
pub proof fn lemma_offered_number_selects(i: nat, count: nat)
    requires
        i < count,
    ensures
        selection(decimal(i + 1), count) == Some(i),
{
    let s = decimal(i + 1);
    lemma_decimal_denotes(i + 1);
    assert(is_digit(s[0]));
    assert(is_digit(s[s.len() - 1]));
    lemma_leading_is(s, 0);
    lemma_trailing_is(s, s.len() as int);
    assert(trimmed(s) =~= s);
}

fn digit_of(d: usize) -> (c: char)
    requires
        d < 10,
    ensures
        c == digit_char(d as nat),
{
    if d == 0 {
        '0'
    } else if d == 1 {
        '1'
    } else if d == 2 {
        '2'
    } else if d == 3 {
        '3'
    } else if d == 4 {
        '4'
    } else if d == 5 {
        '5'
    } else if d == 6 {
        '6'
    } else if d == 7 {
        '7'
    } else if d == 8 {
        '8'
    } else {
        '9'
    }
}

fn push_decimal(out: &mut String, n: usize)
    ensures
        final(out)@ == old(out)@ + decimal(n as nat),
    decreases n,
{
    if n >= 10 {
        push_decimal(out, n / 10);
    }
    out.push(digit_of(n % 10));
}

/// The line that offers a profile for selection: see [`choice_text`].
pub fn choice_line(number: usize, profile: &Profile, mark_current: bool) -> (line: String)
    ensures
        line@ == choice_text(number as nat, profile@, mark_current),
{
    let mut line = String::new();
    push_decimal(&mut line, number);
    line.append(". ");
    line.append(profile.name.as_str());
    line.append(" <");
    line.append(profile.email.as_str());
    line.append(">");
    if mark_current && profile.current {
        line.append(" (current)");
    }
    line
}

/// The lines that offer the profiles for selection, numbered from 1 in the
/// order of the store.
pub fn selection_lines(config: &Config, mark_current: bool) -> (lines: Vec<String>)
    ensures
        lines@.len() == config@.len(),
        forall|i: int|
            0 <= i < config@.len() ==> #[trigger] texts(lines@)[i] == choice_text(
                (i + 1) as nat,
                config@[i],
                mark_current,
            ),
{
    let mut lines: Vec<String> = Vec::new();
    let n = config.profiles.len();
    let mut k: usize = 0;
    while k < n
        invariant
            k <= n,
            n == config.profiles.len(),
            lines@.len() == k,
            forall|i: int|
                0 <= i < k ==> (#[trigger] lines@[i])@ == choice_text(
                    (i + 1) as nat,
                    config@[i],
                    mark_current,
                ),
        decreases n - k,
    {
        let line = choice_line(k + 1, &config.profiles[k], mark_current);
        lines.push(line);
        k += 1;
    }
    lines
}

/// The lines that offer the profiles for selection, or none where the store
/// is empty and there is nothing to select.
pub fn selection_menu(config: &Config, mark_current: bool) -> (menu: Option<Vec<String>>)
    ensures
        config@.len() == 0 <==> menu is None,
        menu is Some ==> menu->0@.len() == config@.len() && forall|i: int|
            0 <= i < config@.len() ==> #[trigger] texts(menu->0@)[i] == choice_text(
                (i + 1) as nat,
                config@[i],
                mark_current,
            ),
{
    if config.profiles.len() == 0 {
        None
    } else {
        Some(selection_lines(config, mark_current))
    }
}

} // verus!
