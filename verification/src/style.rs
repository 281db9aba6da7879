//! Terminal colours: the colour of a size, ANSI colouring of text, and
//! truncation of coloured text to a visible width.
use vstd::prelude::*;
use crate::text::{to_chars, push_char};

verus! {

/// A terminal colour, with the variants of `crossterm::style::Color`.
#[derive(Clone, Copy, Debug, PartialEq, Eq, Structural)]
pub enum Color {
    Reset,
    Black,
    DarkGrey,
    Red,
    DarkRed,
    Green,
    DarkGreen,
    Yellow,
    DarkYellow,
    Blue,
    DarkBlue,
    Magenta,
    DarkMagenta,
    Cyan,
    DarkCyan,
    White,
    Grey,
    Rgb { r: u8, g: u8, b: u8 },
    AnsiValue(u8),
}

/// The colour of a size: dark grey below 1 KiB, cyan below 1 MiB, green
/// below 100 MiB, yellow below 1 GiB, magenta below 10 GiB, red above.
pub open spec fn size_color_of(bytes: int) -> Color {
    if bytes >= 10 * 0x4000_0000 {
        Color::Red
    } else if bytes >= 0x4000_0000 {
        Color::Magenta
    } else if bytes >= 100 * 0x10_0000 {
        Color::Yellow
    } else if bytes >= 0x10_0000 {
        Color::Green
    } else if bytes >= 0x400 {
        Color::Cyan
    } else {
        Color::DarkGrey
    }
}

/// The colour in which a size of `bytes` is shown.
pub fn size_color(bytes: u64) -> (c: Color)
    ensures
        c == size_color_of(bytes as int),
{
    let gib: u64 = 1 << 30;
    let mib: u64 = 1 << 20;
    let kib: u64 = 1 << 10;
    assert(1u64 << 30 == 0x4000_0000u64) by (bit_vector);
    assert(1u64 << 20 == 0x10_0000u64) by (bit_vector);
    assert(1u64 << 10 == 0x400u64) by (bit_vector);
    if bytes >= 10 * gib {
        Color::Red
    } else if bytes >= gib {
        Color::Magenta
    } else if bytes >= 100 * mib {
        Color::Yellow
    } else if bytes >= mib {
        Color::Green
    } else if bytes >= kib {
        Color::Cyan
    } else {
        Color::DarkGrey
    }
}

/// The SGR foreground code of a colour; colours without one of their own
/// get `37` (white).
pub open spec fn color_code(c: Color) -> Seq<char> {
    match c {
        Color::Red => "31"@,
        Color::Green => "32"@,
        Color::Yellow => "33"@,
        Color::Blue => "34"@,
        Color::Magenta => "35"@,
        Color::Cyan => "36"@,
        Color::DarkGrey => "90"@,
        _ => "37"@,
    }
}

/// `s` between the escape sequence that selects colour `c` (bold when
/// `bold`) and the one that resets all attributes.
pub open spec fn ansi_text(s: Seq<char>, c: Color, bold: bool) -> Seq<char> {
    if bold {
        "\x1b[1;"@ + color_code(c) + "m"@ + s + "\x1b[0m"@
    } else {
        "\x1b["@ + color_code(c) + "m"@ + s + "\x1b[0m"@
    }
}

fn code(c: Color) -> (r: &'static str)
    ensures
        r@ == color_code(c),
{
    match c {
        Color::Red => "31",
        Color::Green => "32",
        Color::Yellow => "33",
        Color::Blue => "34",
        Color::Magenta => "35",
        Color::Cyan => "36",
        Color::DarkGrey => "90",
        _ => "37",
    }
}

/// Wraps `s` in ANSI escape sequences for colour `color`, bold or not.
pub fn ansi(s: &str, color: Color, bold: bool) -> (r: String)
    ensures
        r@ == ansi_text(s@, color, bold),
{
    let mut r = String::new();
    if bold {
        r.append("\x1b[1;");
    } else {
        r.append("\x1b[");
    }
    r.append(code(color));
    r.append("m");
    r.append(s);
    r.append("\x1b[0m");
    proof {
        assert(r@ =~= ansi_text(s@, color, bold));
    }
    r
}

/// Whether `c` is an ASCII letter (what ends an escape sequence).
pub open spec fn is_ascii_letter(c: char) -> bool {
    ('A' <= c && c <= 'Z') || ('a' <= c && c <= 'z')
}

/// Scans `s` from index `i`, inside an escape sequence or not, with
/// `visible` characters shown so far: returns the characters kept and the
/// final count of visible characters. Escape sequences (from ESC to the
/// next ASCII letter) are kept whole and are not counted; the scan stops at
/// the first visible character once `max` of them have been kept.
pub open spec fn truncate_scan(s: Seq<char>, i: int, max: int, in_escape: bool, visible: int) -> (
    Seq<char>,
    int,
)
    decreases s.len() - i,
{
    if i >= s.len() || i < 0 {
        (seq![], visible)
    } else {
        let c = s[i];
        if in_escape {
            let rest = truncate_scan(s, i + 1, max, !is_ascii_letter(c), visible);
            (seq![c] + rest.0, rest.1)
        } else if c == '\x1b' {
            let rest = truncate_scan(s, i + 1, max, true, visible);
            (seq![c] + rest.0, rest.1)
        } else if visible >= max {
            (seq![], visible)
        } else {
            let rest = truncate_scan(s, i + 1, max, false, visible + 1);
            (seq![c] + rest.0, rest.1)
        }
    }
}

/// The text of `truncate_ansi(s, max)`: the characters kept by the scan,
/// followed by a reset sequence when `max` visible characters were reached.
pub open spec fn truncated_text(s: Seq<char>, max: int) -> Seq<char> {
    let scan = truncate_scan(s, 0, max, false, 0);
    if scan.1 >= max {
        scan.0 + "\x1b[0m"@
    } else {
        scan.0
    }
}

/// Truncates a string holding ANSI escape codes to `max_visible` visible
/// characters, keeping the escape sequences, and resets the attributes
/// when the limit is reached.
pub fn truncate_ansi(s: &str, max_visible: usize) -> (r: String)
    ensures
        r@ == truncated_text(s@, max_visible as int),
{
    let chars = to_chars(s);
    let ghost full = truncate_scan(s@, 0, max_visible as int, false, 0);
    let mut result = String::new();
    let mut visible: usize = 0;
    let mut in_escape = false;
    let mut i: usize = 0;
    while i < chars.len()
        invariant_except_break
            chars@ == s@,
            i <= chars.len(),
            visible <= max_visible,
            full.0 == result@ + truncate_scan(s@, i as int, max_visible as int, in_escape, visible as int).0,
            full.1 == truncate_scan(s@, i as int, max_visible as int, in_escape, visible as int).1,
        ensures
            full.0 == result@,
            full.1 == visible,
        decreases chars.len() - i,
    {
        let ch = chars[i];
        let ghost rest_before = truncate_scan(s@, i as int, max_visible as int, in_escape, visible as int);
        if in_escape {
            push_char(&mut result, ch);
            if ('A' <= ch && ch <= 'Z') || ('a' <= ch && ch <= 'z') {
                in_escape = false;
            }
        } else if ch == '\x1b' {
            in_escape = true;
            push_char(&mut result, ch);
        } else {
            if visible >= max_visible {
                break;
            }
            push_char(&mut result, ch);
            visible += 1;
        }
        i += 1;
        proof {
            let rest = truncate_scan(s@, i as int, max_visible as int, in_escape, visible as int);
            assert(rest_before.0 == seq![ch] + rest.0);
            assert(full.0 =~= result@ + rest.0);
        }
    }
    if visible >= max_visible {
        result.append("\x1b[0m");
    }
    result
}

/// The place of a size colour in the scale, smallest sizes first: dark
/// grey, cyan, green, yellow, magenta, red.
pub open spec fn color_rank(c: Color) -> int {
    match c {
        Color::DarkGrey => 0,
        Color::Cyan => 1,
        Color::Green => 2,
        Color::Yellow => 3,
        Color::Magenta => 4,
        Color::Red => 5,
        _ => -1,
    }
}

/// A larger size never gets a colour lower in the scale.
pub proof fn lemma_size_color_monotone(a: int, b: int)
    requires
        a <= b,
    ensures
        0 <= color_rank(size_color_of(a)) <= color_rank(size_color_of(b)),
{
}

/// The text kept by the scan is a prefix of the input, and it never shows
/// more than `max` visible characters.
pub proof fn lemma_truncate_scan_prefix(s: Seq<char>, i: int, max: int, in_escape: bool, visible: int)
    requires
        0 <= i <= s.len(),
        visible <= max,
    ensures
        i + truncate_scan(s, i, max, in_escape, visible).0.len() <= s.len(),
        truncate_scan(s, i, max, in_escape, visible).0 == s.subrange(
            i,
            i + truncate_scan(s, i, max, in_escape, visible).0.len(),
        ),
        visible <= truncate_scan(s, i, max, in_escape, visible).1 <= max,
    decreases s.len() - i,
{
    if i < s.len() {
        let c = s[i];
        if in_escape {
            lemma_truncate_scan_prefix(s, i + 1, max, !is_ascii_letter(c), visible);
        } else if c == '\x1b' {
            lemma_truncate_scan_prefix(s, i + 1, max, true, visible);
        } else if visible < max {
            lemma_truncate_scan_prefix(s, i + 1, max, false, visible + 1);
        }
        let r = truncate_scan(s, i, max, in_escape, visible);
        assert(r.0 =~= s.subrange(i, i + r.0.len()));
    } else {
        assert(truncate_scan(s, i, max, in_escape, visible).0 =~= s.subrange(i, i));
    }
}

/// `truncate_ansi` keeps a prefix of its input, followed by a reset
/// sequence exactly when the limit was reached.
pub proof fn lemma_truncated_is_prefix(s: Seq<char>, max: int)
    requires
        max >= 0,
    ensures
        ({
            let scan = truncate_scan(s, 0, max, false, 0);
            &&& scan.0 == s.take(scan.0.len() as int)
            &&& scan.1 <= max
            &&& truncated_text(s, max) == if scan.1 >= max {
                scan.0 + "\x1b[0m"@
            } else {
                scan.0
            }
        }),
{
    lemma_truncate_scan_prefix(s, 0, max, false, 0);
    let scan = truncate_scan(s, 0, max, false, 0);
    assert(s.subrange(0, scan.0.len() as int) =~= s.take(scan.0.len() as int));
}

/// The characters of `s` that show on a terminal: those outside escape
/// sequences (an escape sequence runs from ESC to the next ASCII letter),
/// starting inside one when `in_escape`.
pub open spec fn visible_chars(s: Seq<char>, in_escape: bool) -> Seq<char>
    decreases s.len(),
{
    if s.len() == 0 {
        Seq::empty()
    } else if in_escape {
        visible_chars(s.drop_first(), !is_ascii_letter(s[0]))
    } else if s[0] == '\x1b' {
        visible_chars(s.drop_first(), true)
    } else {
        seq![s[0]] + visible_chars(s.drop_first(), false)
    }
}

/// Whether the end of `s` lies inside an escape sequence.
pub open spec fn escape_state_after(s: Seq<char>, in_escape: bool) -> bool
    decreases s.len(),
{
    if s.len() == 0 {
        in_escape
    } else if in_escape {
        escape_state_after(s.drop_first(), !is_ascii_letter(s[0]))
    } else {
        escape_state_after(s.drop_first(), s[0] == '\x1b')
    }
}

/// What a concatenation shows: what the first part shows, then what the
/// second shows from the state the first ends in.
pub proof fn lemma_visible_concat(a: Seq<char>, b: Seq<char>, in_escape: bool)
    ensures
        visible_chars(a + b, in_escape) == visible_chars(a, in_escape) + visible_chars(
            b,
            escape_state_after(a, in_escape),
        ),
    decreases a.len(),
{
    if a.len() > 0 {
        assert((a + b).drop_first() =~= a.drop_first() + b);
        assert((a + b)[0] == a[0]);
        if in_escape {
            lemma_visible_concat(a.drop_first(), b, !is_ascii_letter(a[0]));
        } else if a[0] == '\x1b' {
            lemma_visible_concat(a.drop_first(), b, true);
        } else {
            lemma_visible_concat(a.drop_first(), b, false);
            assert(seq![a[0]] + (visible_chars(a.drop_first(), false) + visible_chars(b, escape_state_after(a.drop_first(), false)))
                =~= seq![a[0]] + visible_chars(a.drop_first(), false) + visible_chars(b, escape_state_after(a.drop_first(), false)));
        }
    } else {
        assert(a + b =~= b);
    }
}

proof fn lemma_reset_invisible(in_escape: bool)
    ensures
        visible_chars("\x1b[0m"@, in_escape) == Seq::<char>::empty(),
        !escape_state_after("\x1b[0m"@, in_escape),
{
    reveal_strlit("\x1b[0m");
    let r = "\x1b[0m"@;
    assert(r.drop_first() =~= seq!['[', '0', 'm']);
    assert(seq!['[', '0', 'm'].drop_first() =~= seq!['0', 'm']);
    assert(seq!['0', 'm'].drop_first() =~= seq!['m']);
    assert(seq!['m'].drop_first() =~= Seq::<char>::empty());
    assert(is_ascii_letter('m') && !is_ascii_letter('0') && !is_ascii_letter('[') && !is_ascii_letter('\x1b'));
    assert(seq!['m'].len() == 1 && seq!['m'][0] == 'm');
    assert(visible_chars(Seq::<char>::empty(), false) == Seq::<char>::empty());
    assert(visible_chars(seq!['m'], true) == visible_chars(seq!['m'].drop_first(), !is_ascii_letter('m')));
    assert(visible_chars(seq!['m'], true) == Seq::<char>::empty());
    assert(visible_chars(seq!['0', 'm'], true) == Seq::<char>::empty());
    assert(visible_chars(seq!['[', '0', 'm'], true) == Seq::<char>::empty());
    assert(r[0] == '\x1b');
    assert(!escape_state_after(Seq::<char>::empty(), false));
    assert(!escape_state_after(seq!['m'], true));
    assert(!escape_state_after(seq!['0', 'm'], true));
    assert(!escape_state_after(seq!['[', '0', 'm'], true));
}

proof fn lemma_scan_visible(s: Seq<char>, i: int, max: int, in_escape: bool, visible: int)
    requires
        0 <= i <= s.len(),
        visible <= max,
    ensures
        ({
            let r = truncate_scan(s, i, max, in_escape, visible);
            let rest = visible_chars(s.skip(i), in_escape);
            &&& r.1 - visible == (if max - visible < rest.len() { max - visible } else { rest.len() as int })
            &&& visible_chars(r.0, in_escape) == rest.take(r.1 - visible)
        }),
    decreases s.len() - i,
{
    let r = truncate_scan(s, i, max, in_escape, visible);
    let t = s.skip(i);
    if i < s.len() {
        let c = s[i];
        assert(t[0] == c);
        assert(t.drop_first() =~= s.skip(i + 1));
        if in_escape {
            lemma_scan_visible(s, i + 1, max, !is_ascii_letter(c), visible);
            assert((seq![c] + truncate_scan(s, i + 1, max, !is_ascii_letter(c), visible).0).drop_first()
                =~= truncate_scan(s, i + 1, max, !is_ascii_letter(c), visible).0);
        } else if c == '\x1b' {
            lemma_scan_visible(s, i + 1, max, true, visible);
            assert((seq![c] + truncate_scan(s, i + 1, max, true, visible).0).drop_first() =~= truncate_scan(
                s,
                i + 1,
                max,
                true,
                visible,
            ).0);
        } else if visible >= max {
            assert(visible_chars(r.0, in_escape) =~= visible_chars(t, in_escape).take(0));
        } else {
            let q = truncate_scan(s, i + 1, max, false, visible + 1);
            lemma_scan_visible(s, i + 1, max, false, visible + 1);
            assert((seq![c] + q.0).drop_first() =~= q.0);
            assert((seq![c] + q.0)[0] == c);
            let tail = visible_chars(s.skip(i + 1), false);
            assert(visible_chars(t, false) == seq![c] + tail);
            assert((seq![c] + tail).take(q.1 - visible) =~= seq![c] + tail.take(q.1 - visible - 1));
        }
    } else {
        assert(t.len() == 0);
        assert(visible_chars(r.0, in_escape) =~= visible_chars(t, in_escape).take(0));
    }
}

/// What `truncate_ansi` shows is the start of what its input shows:
/// `min(max, n)` visible characters, `n` being the number the input shows.
pub proof fn lemma_truncated_visible(s: Seq<char>, max: int)
    requires
        max >= 0,
    ensures
        visible_chars(truncated_text(s, max), false) == visible_chars(s, false).take(
            if max < visible_chars(s, false).len() { max } else { visible_chars(s, false).len() as int },
        ),
{
    lemma_scan_visible(s, 0, max, false, 0);
    assert(s.skip(0) =~= s);
    let scan = truncate_scan(s, 0, max, false, 0);
    if scan.1 >= max {
        lemma_visible_concat(scan.0, "\x1b[0m"@, false);
        lemma_reset_invisible(escape_state_after(scan.0, false));
        assert(visible_chars(scan.0, false) + Seq::<char>::empty() =~= visible_chars(scan.0, false));
    }
}

/// Inside an escape sequence, characters that are not letters show
/// nothing and keep the sequence open.
proof fn lemma_no_letters_in_escape(x: Seq<char>)
    requires
        forall|i: int| 0 <= i < x.len() ==> !is_ascii_letter(#[trigger] x[i]),
    ensures
        visible_chars(x, true) == Seq::<char>::empty(),
        escape_state_after(x, true),
    decreases x.len(),
{
    if x.len() > 0 {
        assert forall|i: int| 0 <= i < x.drop_first().len() implies !is_ascii_letter(#[trigger] x.drop_first()[i]) by {
            assert(x.drop_first()[i] == x[i + 1]);
        }
        lemma_no_letters_in_escape(x.drop_first());
    }
}

/// Text without escape characters shows as it is and ends outside any
/// escape sequence.
pub proof fn lemma_plain_text_visible(x: Seq<char>)
    requires
        forall|i: int| 0 <= i < x.len() ==> #[trigger] x[i] != '\x1b',
    ensures
        visible_chars(x, false) == x,
        !escape_state_after(x, false),
    decreases x.len(),
{
    if x.len() > 0 {
        assert forall|i: int| 0 <= i < x.drop_first().len() implies #[trigger] x.drop_first()[i] != '\x1b' by {
            assert(x.drop_first()[i] == x[i + 1]);
        }
        lemma_plain_text_visible(x.drop_first());
        assert(seq![x[0]] + x.drop_first() =~= x);
    }
}

/// Coloured text shows exactly its text: the escape sequences around it
/// show nothing.
pub proof fn lemma_ansi_visible(x: Seq<char>, c: Color, bold: bool)
    requires
        forall|i: int| 0 <= i < x.len() ==> #[trigger] x[i] != '\x1b',
    ensures
        visible_chars(ansi_text(x, c, bold), false) == x,
        !escape_state_after(ansi_text(x, c, bold), false),
{
    reveal_strlit("\x1b[1;");
    reveal_strlit("\x1b[");
    reveal_strlit("m");
    reveal_strlit("31");
    reveal_strlit("32");
    reveal_strlit("33");
    reveal_strlit("34");
    reveal_strlit("35");
    reveal_strlit("36");
    reveal_strlit("90");
    reveal_strlit("37");
    let open = if bold { "\x1b[1;"@ } else { "\x1b["@ };
    let code = color_code(c);
    assert(open[0] == '\x1b');
    let body = open.drop_first() + code;
    assert forall|i: int| 0 <= i < body.len() implies !is_ascii_letter(#[trigger] body[i]) by {
        if i < open.drop_first().len() {
            assert(body[i] == open[i + 1]);
        } else {
            assert(body[i] == code[i - open.drop_first().len()]);
        }
    }
    lemma_no_letters_in_escape(body);
    let e = seq!['\x1b'];
    assert(open + code =~= e + body);
    assert(e.len() == 1 && e[0] == '\x1b');
    assert(e.drop_first() =~= Seq::<char>::empty());
    assert(visible_chars(Seq::<char>::empty(), true) == Seq::<char>::empty());
    assert(escape_state_after(Seq::<char>::empty(), true));
    assert(visible_chars(e, false) == visible_chars(e.drop_first(), true));
    assert(escape_state_after(e, false) == escape_state_after(e.drop_first(), true));
    lemma_visible_concat(e, body, false);
    let pre = open + code;
    assert(visible_chars(pre, false) == Seq::<char>::empty());
    assert(escape_state_after(pre, false)) by {
        lemma_escape_after_concat(e, body, false);
    }
    let m = "m"@;
    assert(m =~= seq!['m']);
    assert(is_ascii_letter('m'));
    lemma_visible_concat(pre, m, false);
    lemma_escape_after_concat(pre, m, false);
    assert(m.drop_first() =~= Seq::<char>::empty());
    assert(m.len() == 1 && m[0] == 'm');
    assert(visible_chars(Seq::<char>::empty(), false) == Seq::<char>::empty());
    assert(!escape_state_after(Seq::<char>::empty(), false));
    assert(visible_chars(m, true) == visible_chars(m.drop_first(), false));
    assert(escape_state_after(m, true) == escape_state_after(m.drop_first(), false));
    let pm = pre + m;
    assert(visible_chars(pm, false) =~= Seq::<char>::empty());
    assert(!escape_state_after(pm, false));
    lemma_plain_text_visible(x);
    lemma_visible_concat(pm, x, false);
    lemma_escape_after_concat(pm, x, false);
    lemma_visible_concat(pm + x, "\x1b[0m"@, false);
    lemma_reset_invisible(escape_state_after(pm + x, false));
    assert(ansi_text(x, c, bold) =~= pm + x + "\x1b[0m"@);
    assert(visible_chars(pm + x, false) =~= x);
    assert(visible_chars(pm + x + "\x1b[0m"@, false) =~= x);
    lemma_escape_after_concat(pm + x, "\x1b[0m"@, false);
}

/// Two pieces that each end outside an escape sequence show, together,
/// what each shows.
pub proof fn lemma_visible_join(a: Seq<char>, b: Seq<char>)
    requires
        !escape_state_after(a, false),
        !escape_state_after(b, false),
    ensures
        visible_chars(a + b, false) == visible_chars(a, false) + visible_chars(b, false),
        !escape_state_after(a + b, false),
{
    lemma_visible_concat(a, b, false);
    lemma_escape_after_concat(a, b, false);
}

proof fn lemma_escape_after_concat(a: Seq<char>, b: Seq<char>, in_escape: bool)
    ensures
        escape_state_after(a + b, in_escape) == escape_state_after(b, escape_state_after(a, in_escape)),
    decreases a.len(),
{
    if a.len() > 0 {
        assert((a + b).drop_first() =~= a.drop_first() + b);
        assert((a + b)[0] == a[0]);
        if in_escape {
            lemma_escape_after_concat(a.drop_first(), b, !is_ascii_letter(a[0]));
        } else {
            lemma_escape_after_concat(a.drop_first(), b, a[0] == '\x1b');
        }
    } else {
        assert(a + b =~= b);
    }
}

/// The colour bands of sizes, by order of magnitude: dark grey below
/// 1 KiB, cyan from 1 KiB, green from 1 MiB, yellow from 100 MiB, magenta
/// from 1 GiB and red from 10 GiB.
pub proof fn lemma_size_color_bands(b: int)
    ensures
        b < 1024 ==> size_color_of(b) == Color::DarkGrey,
        1024 <= b < 1024 * 1024 ==> size_color_of(b) == Color::Cyan,
        1024 * 1024 <= b < 100 * 1024 * 1024 ==> size_color_of(b) == Color::Green,
        100 * 1024 * 1024 <= b < 1024 * 1024 * 1024 ==> size_color_of(b) == Color::Yellow,
        1024 * 1024 * 1024 <= b < 10 * 1024 * 1024 * 1024 ==> size_color_of(b) == Color::Magenta,
        10 * 1024 * 1024 * 1024 <= b ==> size_color_of(b) == Color::Red,
{
}

/// The colours use the standard SGR foreground codes (bright black `90`
/// for dark grey), and the six colours of sizes get six different codes.
pub proof fn lemma_color_codes()
    ensures
        color_code(Color::Red) == "31"@,
        color_code(Color::Green) == "32"@,
        color_code(Color::Yellow) == "33"@,
        color_code(Color::Blue) == "34"@,
        color_code(Color::Magenta) == "35"@,
        color_code(Color::Cyan) == "36"@,
        color_code(Color::DarkGrey) == "90"@,
        color_code(Color::White) == "37"@,
        "31"@ =~= seq!['3', '1'],
        "32"@ =~= seq!['3', '2'],
        "33"@ =~= seq!['3', '3'],
        "34"@ =~= seq!['3', '4'],
        "35"@ =~= seq!['3', '5'],
        "36"@ =~= seq!['3', '6'],
        "90"@ =~= seq!['9', '0'],
        "37"@ =~= seq!['3', '7'],
        forall|a: Color, b: Color|
            #![trigger color_rank(a), color_rank(b)]
            0 <= color_rank(a) && 0 <= color_rank(b) && a != b ==> color_code(a) != color_code(b),
{
    reveal_strlit("31");
    reveal_strlit("32");
    reveal_strlit("33");
    reveal_strlit("34");
    reveal_strlit("35");
    reveal_strlit("36");
    reveal_strlit("90");
    reveal_strlit("37");
    assert forall|a: Color, b: Color|
        #![trigger color_rank(a), color_rank(b)]
        0 <= color_rank(a) && 0 <= color_rank(b) && a != b implies color_code(a) != color_code(b) by {
        assert(color_code(a)[1] != color_code(b)[1] || color_code(a)[0] != color_code(b)[0]);
    }
}

/// Coloured text is the SGR sequence `ESC [`, then `1;` when bold, then
/// the colour's code and `m`; the text; and the reset sequence `ESC [0m`.
pub proof fn lemma_ansi_layout(s: Seq<char>, c: Color, bold: bool)
    ensures
        ansi_text(s, c, bold) == seq!['\x1b', '['] + (if bold { seq!['1', ';'] } else { Seq::empty() }) + color_code(c)
            + seq!['m'] + s + seq!['\x1b', '[', '0', 'm'],
{
    reveal_strlit("\x1b[1;");
    reveal_strlit("\x1b[");
    reveal_strlit("m");
    reveal_strlit("\x1b[0m");
    let head = seq!['\x1b', '['] + (if bold { seq!['1', ';'] } else { Seq::<char>::empty() });
    if bold {
        assert("\x1b[1;"@ =~= head);
    } else {
        assert("\x1b["@ =~= head);
    }
    assert("m"@ =~= seq!['m']);
    assert("\x1b[0m"@ =~= seq!['\x1b', '[', '0', 'm']);
}

} // verus!
