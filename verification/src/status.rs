//! The exchange with the meme server.
//!
//! The program reports the battery level and the id of the picture on
//! screen; the server answers with its current picture id on the first line
//! and the picture's bytes after it.

use vstd::prelude::*;
use crate::decimal::{decimal_i32, format_i32, lemma_i32_text_roundtrip, parse_i32, parse_i32_spec, IntErrorKind};
use crate::text::is_utf8;

verus! {

/// Characters that `char::is_whitespace` accepts (Unicode White_Space).
pub open spec fn is_unicode_whitespace(c: char) -> bool {
    let u = c as u32;
    ||| 0x09 <= u <= 0x0d
    ||| u == 0x20
    ||| u == 0x85
    ||| u == 0xa0
    ||| u == 0x1680
    ||| 0x2000 <= u <= 0x200a
    ||| u == 0x2028
    ||| u == 0x2029
    ||| u == 0x202f
    ||| u == 0x205f
    ||| u == 0x3000
}

/// Which characters a trim removes.
#[derive(Clone, Copy, PartialEq, Eq, Structural)]
pub enum TrimClass {
    /// Unicode whitespace, as `str::trim` removes.
    Whitespace,
    /// The percent sign, as `str::trim_matches('%')` removes.
    Percent,
}

/// `c` is removed by a trim of class `k`.
pub open spec fn trimmed_by(k: TrimClass, c: char) -> bool {
    match k {
        TrimClass::Whitespace => is_unicode_whitespace(c),
        TrimClass::Percent => c == '%',
    }
}

/// `s` without its leading characters of class `k`.
pub open spec fn strip_leading(s: Seq<char>, k: TrimClass) -> Seq<char>
    decreases s.len(),
{
    if s.len() > 0 && trimmed_by(k, s[0]) {
        strip_leading(s.drop_first(), k)
    } else {
        s
    }
}

/// `s` without its trailing characters of class `k`.
pub open spec fn strip_trailing(s: Seq<char>, k: TrimClass) -> Seq<char>
    decreases s.len(),
{
    if s.len() > 0 && trimmed_by(k, s.last()) {
        strip_trailing(s.drop_last(), k)
    } else {
        s
    }
}

/// `s` without its leading and trailing characters of class `k`.
pub open spec fn trim_class(s: Seq<char>, k: TrimClass) -> Seq<char> {
    strip_trailing(strip_leading(s, k), k)
}

/// The battery level as the server is told it: the file's text without
/// surrounding whitespace, then without surrounding percent signs.
pub open spec fn battery_level_text(raw: Seq<char>) -> Seq<char> {
    trim_class(trim_class(raw, TrimClass::Whitespace), TrimClass::Percent)
}

/// ASCII bytes read as characters.
pub open spec fn ascii_chars(b: Seq<u8>) -> Seq<char> {
    b.map_values(|x: u8| x as char)
}

/// Text of the id of the picture on screen: its decimal form, or nothing.
pub open spec fn local_id_text(local_id: Option<i32>) -> Seq<char> {
    match local_id {
        Some(id) => ascii_chars(decimal_i32(id)),
        None => Seq::empty(),
    }
}

/// The body of the status report: battery level, a space, then the id of
/// the picture on screen.
pub open spec fn status_request_spec(battery_raw: Seq<char>, local_id: Option<i32>) -> Seq<char> {
    battery_level_text(battery_raw) + seq![' '] + local_id_text(local_id)
}

/// Characters read back as bytes (each below 256 in the texts used here).
pub open spec fn char_bytes(s: Seq<char>) -> Seq<u8> {
    s.map_values(|c: char| (c as u32) as u8)
}

/// Law: the status report is the battery text, one space, then what
/// identifies the picture on screen. With a picture shown, the characters
/// after the space are read back by `parse_i32` as exactly its id; with none
/// shown, nothing follows the space.
pub proof fn lemma_status_request_layout(battery_raw: Seq<char>, local_id: Option<i32>)
    ensures
        ({
            let s = status_request_spec(battery_raw, local_id);
            let b = battery_level_text(battery_raw);
            &&& s.len() > b.len()
            &&& s.take(b.len() as int) == b
            &&& s[b.len() as int] == ' '
            &&& match local_id {
                Some(id) => parse_i32_spec(char_bytes(s.skip(b.len() as int + 1))) == Ok::<i32, IntErrorKind>(id),
                None => s.len() == b.len() + 1,
            }
        }),
{
    let s = status_request_spec(battery_raw, local_id);
    let b = battery_level_text(battery_raw);
    let t = local_id_text(local_id);
    assert(s.take(b.len() as int) =~= b);
    assert(s.skip(b.len() as int + 1) =~= t);
    if let Some(id) = local_id {
        let d = decimal_i32(id);
        assert(char_bytes(t) =~= d);
        lemma_i32_text_roundtrip(id);
    }
}

fn in_class(k: TrimClass, c: char) -> (r: bool)
    ensures
        r == trimmed_by(k, c),
{
    match k {
        TrimClass::Whitespace => {
            let u = c as u32;
            (0x09 <= u && u <= 0x0d) || u == 0x20 || u == 0x85 || u == 0xa0 || u == 0x1680 || (0x2000
                <= u && u <= 0x200a) || u == 0x2028 || u == 0x2029 || u == 0x202f || u == 0x205f || u
                == 0x3000
        },
        TrimClass::Percent => c == '%',
    }
}

proof fn lemma_strip_leading(s: Seq<char>, k: TrimClass, i: int)
    requires
        0 <= i <= s.len(),
        forall|j: int| 0 <= j < i ==> trimmed_by(k, #[trigger] s[j]),
        i == s.len() || !trimmed_by(k, s[i]),
    ensures
        strip_leading(s, k) == s.skip(i),
    decreases i,
{
    if i == 0 {
        assert(s.skip(0) =~= s);
    } else {
        let t = s.drop_first();
        assert forall|j: int| 0 <= j < i - 1 implies trimmed_by(k, #[trigger] t[j]) by {
            assert(t[j] == s[j + 1]);
        }
        if i < s.len() {
            assert(t[i - 1] == s[i]);
        }
        lemma_strip_leading(t, k, i - 1);
        assert(t.skip(i - 1) =~= s.skip(i));
    }
}

proof fn lemma_strip_trailing(s: Seq<char>, k: TrimClass, j: int)
    requires
        0 <= j <= s.len(),
        forall|m: int| j <= m < s.len() ==> trimmed_by(k, #[trigger] s[m]),
        j == 0 || !trimmed_by(k, s[j - 1]),
    ensures
        strip_trailing(s, k) == s.take(j),
    decreases s.len() - j,
{
    if j == s.len() {
        assert(s.take(j) =~= s);
    } else {
        let t = s.drop_last();
        assert forall|m: int| j <= m < t.len() implies trimmed_by(k, #[trigger] t[m]) by {
            assert(t[m] == s[m]);
        }
        if j > 0 {
            assert(t[j - 1] == s[j - 1]);
        }
        assert(trimmed_by(k, s[s.len() - 1]));
        lemma_strip_trailing(t, k, j);
        assert(t.take(j) =~= s.take(j));
    }
}

/// Bounds of `s[lo..hi]` with the characters of class `k` trimmed at both ends.
fn trim_bounds(s: &[char], lo: usize, hi: usize, k: TrimClass) -> (r: (usize, usize))
    requires
        lo <= hi <= s@.len(),
    ensures
        lo <= r.0 <= r.1 <= hi,
        s@.subrange(r.0 as int, r.1 as int) == trim_class(s@.subrange(lo as int, hi as int), k),
{
    let ghost t = s@.subrange(lo as int, hi as int);
    let mut i = lo;
    while i < hi
        invariant
            lo <= i <= hi <= s@.len(),
            t == s@.subrange(lo as int, hi as int),
            forall|j: int| 0 <= j < i - lo ==> trimmed_by(k, #[trigger] t[j]),
        ensures
            lo <= i <= hi,
            forall|j: int| 0 <= j < i - lo ==> trimmed_by(k, #[trigger] t[j]),
            i == hi || !trimmed_by(k, s@[i as int]),
        decreases hi - i,
    {
        if !in_class(k, s[i]) {
            break;
        }
        assert(t[i - lo] == s@[i as int]);
        i = i + 1;
    }
    proof {
        if i < hi {
            assert(t[i - lo] == s@[i as int]);
        }
        lemma_strip_leading(t, k, i - lo);
    }
    let ghost u = t.skip(i - lo);
    assert(u =~= s@.subrange(i as int, hi as int));
    let mut j = hi;
    while j > i
        invariant
            lo <= i <= j <= hi <= s@.len(),
            u == s@.subrange(i as int, hi as int),
            forall|m: int| j - i <= m < u.len() ==> trimmed_by(k, #[trigger] u[m]),
        ensures
            i <= j <= hi,
            forall|m: int| j - i <= m < u.len() ==> trimmed_by(k, #[trigger] u[m]),
            j == i || !trimmed_by(k, s@[j - 1]),
        decreases j - i,
    {
        if !in_class(k, s[j - 1]) {
            break;
        }
        assert(u[j - 1 - i] == s@[j - 1]);
        j = j - 1;
    }
    proof {
        if j > i {
            assert(u[j - 1 - i] == s@[j - 1]);
        }
        lemma_strip_trailing(u, k, j - i);
        assert(u.take(j - i) =~= s@.subrange(i as int, j as int));
    }
    (i, j)
}

/// The body of the status report sent to the server: the battery file's
/// text trimmed as the server expects it, a space, then the id of the
/// picture on screen (nothing when there is none).
pub fn status_request(battery_raw: &[char], local_id: Option<i32>) -> (r: Vec<char>)
    ensures
        r@ == status_request_spec(battery_raw@, local_id),
        r@.take(battery_level_text(battery_raw@).len() as int) == battery_level_text(battery_raw@),
        r@[battery_level_text(battery_raw@).len() as int] == ' ',
        local_id matches Some(id) ==> parse_i32_spec(
            char_bytes(r@.skip(battery_level_text(battery_raw@).len() as int + 1)),
        ) == Ok::<i32, IntErrorKind>(id),
        local_id is None ==> r@.len() == battery_level_text(battery_raw@).len() + 1,
{
    proof {
        lemma_status_request_layout(battery_raw@, local_id);
    }
    let (a, b) = trim_bounds(battery_raw, 0, battery_raw.len(), TrimClass::Whitespace);
    let (c, d) = trim_bounds(battery_raw, a, b, TrimClass::Percent);
    assert(battery_raw@.subrange(0, battery_raw@.len() as int) =~= battery_raw@);
    let mut out: Vec<char> = Vec::new();
    let mut i = c;
    while i < d
        invariant
            c <= i <= d <= battery_raw@.len(),
            out@ == battery_raw@.subrange(c as int, i as int),
        decreases d - i,
    {
        out.push(battery_raw[i]);
        assert(out@ =~= battery_raw@.subrange(c as int, i + 1));
        i = i + 1;
    }
    out.push(' ');
    let ghost prefix = out@;
    assert(prefix == battery_level_text(battery_raw@) + seq![' ']);
    match local_id {
        Some(id) => {
            let digits = format_i32(id);
            let mut j: usize = 0;
            while j < digits.len()
                invariant
                    j <= digits@.len(),
                    digits@ == decimal_i32(id),
                    out@ == prefix + ascii_chars(digits@.take(j as int)),
                decreases digits@.len() - j,
            {
                let ch = digits[j] as char;
                out.push(ch);
                assert(ascii_chars(digits@.take(j + 1)) =~= ascii_chars(digits@.take(j as int)).push(ch));
                assert(out@ =~= prefix + ascii_chars(digits@.take(j + 1)));
                j = j + 1;
            }
            assert(digits@.take(j as int) =~= digits@);
        },
        None => {
            assert(out@ =~= prefix + Seq::<char>::empty());
        },
    }
    out
}

/// Picture id with which the server tells the board to shut down.
pub const QUIT_MEME_ID: i32 = -1;

/// What the board does with the server's picture id.
#[derive(Clone, Copy, Debug, PartialEq, Eq, Structural)]
pub enum MemeAction {
    /// The server asks the program to stop.
    Quit,
    /// The server has another picture: draw it.
    ShowNew,
    /// The picture on screen is the server's: nothing to do.
    KeepCurrent,
}

/// The action for server id `server_id` when `shown` is on screen.
pub open spec fn meme_action_spec(shown: Option<i32>, server_id: i32) -> MemeAction {
    if server_id == QUIT_MEME_ID {
        MemeAction::Quit
    } else if shown == Some(server_id) {
        MemeAction::KeepCurrent
    } else {
        MemeAction::ShowNew
    }
}

/// The board's memory of which picture is on screen.
pub struct MemeBoard {
    shown: Option<i32>,
}

impl View for MemeBoard {
    type V = Option<i32>;

    /// Id of the picture on screen, if any.
    closed spec fn view(&self) -> Option<i32> {
        self.shown
    }
}

impl MemeBoard {
    /// A board that has shown nothing yet.
    pub fn new() -> (r: MemeBoard)
        ensures
            r@ == None::<i32>,
    {
        MemeBoard { shown: None }
    }

    /// Id of the picture on screen, if any.
    pub fn shown(&self) -> (r: Option<i32>)
        ensures
            r == self@,
    {
        self.shown
    }

    /// What to do with the picture id the server reports.
    pub fn next_action(&self, server_id: i32) -> (r: MemeAction)
        ensures
            r == meme_action_spec(self@, server_id),
    {
        if server_id == QUIT_MEME_ID {
            MemeAction::Quit
        } else {
            match self.shown {
                Some(id) if id == server_id => MemeAction::KeepCurrent,
                _ => MemeAction::ShowNew,
            }
        }
    }

    /// Settles an attempt to show picture `id`: the board records it as on
    /// screen exactly when it was drawn, and otherwise remembers what it had.
    pub fn conclude_update(&mut self, id: i32, drawn: bool)
        ensures
            final(self)@ == after_update_spec(old(self)@, id, drawn),
    {
        if drawn {
            self.shown = Some(id);
        }
    }
}

/// What the board remembers after an attempt to show picture `id`.
pub open spec fn after_update_spec(shown: Option<i32>, id: i32, drawn: bool) -> Option<i32> {
    if drawn {
        Some(id)
    } else {
        shown
    }
}

/// Law: the id the board remembers changes only through a successful draw,
/// and then it is the id that was drawn.
pub proof fn lemma_shown_changes_only_when_drawn(shown: Option<i32>, id: i32, drawn: bool)
    ensures
        after_update_spec(shown, id, drawn) != shown ==> drawn && after_update_spec(shown, id, drawn) == Some(id),
        !drawn ==> after_update_spec(shown, id, drawn) == shown,
{
}

/// Law: once a picture has been drawn and recorded, the same server id
/// asks for nothing more, unless it is the quit id.
pub proof fn lemma_shown_picture_is_kept(shown: Option<i32>, id: i32)
    requires
        id != QUIT_MEME_ID,
    ensures
        meme_action_spec(after_update_spec(shown, id, true), id) == MemeAction::KeepCurrent,
        meme_action_spec(shown, id) == MemeAction::ShowNew <==> shown != Some(id),
{
}

/// Law: the quit id stops the board whatever is on screen.
pub proof fn lemma_quit_always_quits(shown: Option<i32>)
    ensures
        meme_action_spec(shown, QUIT_MEME_ID) == MemeAction::Quit,
{
}

/// Why the server's answer could not be read.
#[derive(Debug, PartialEq, Eq)]
pub enum StatusError {
    /// The first line (given) is not UTF-8 text.
    NotUtf8 { line: Vec<u8> },
    /// The first line (given) is not a 32-bit integer, for the reason `kind`.
    BadMemeId { line: Vec<u8>, kind: IntErrorKind },
    /// There is no line break, so no picture follows the id.
    MissingPicture,
}

/// The ways reading the server's answer fails, without the first line.
pub enum StatusFailure {
    NotUtf8,
    BadMemeId(IntErrorKind),
    MissingPicture,
}

/// Length of the first line of `s`: the index of its first line feed, or
/// its whole length when it has none.
pub open spec fn line_end(s: Seq<u8>) -> int
    decreases s.len(),
{
    if s.len() == 0 || s[0] == 10u8 {
        0
    } else {
        1 + line_end(s.drop_first())
    }
}

/// How the server's answer reads: its first line is the server's picture
/// id, everything after that line's line feed is the picture.
pub open spec fn parse_status_spec(s: Seq<u8>) -> Result<(i32, Seq<u8>), StatusFailure> {
    let k = line_end(s);
    let head = s.take(k);
    if !vstd::utf8::valid_utf8(head) {
        Err(StatusFailure::NotUtf8)
    } else if parse_i32_spec(head) is Err {
        Err(StatusFailure::BadMemeId(parse_i32_spec(head)->Err_0))
    } else if k == s.len() {
        Err(StatusFailure::MissingPicture)
    } else {
        Ok((parse_i32_spec(head)->Ok_0, s.skip(k + 1)))
    }
}

/// The first line of `s`, without its line feed.
pub open spec fn first_line(s: Seq<u8>) -> Seq<u8> {
    s.take(line_end(s))
}

proof fn lemma_line_end(s: Seq<u8>, k: int)
    requires
        0 <= k <= s.len(),
        forall|j: int| 0 <= j < k ==> #[trigger] s[j] != 10u8,
        k == s.len() || s[k] == 10u8,
    ensures
        line_end(s) == k,
    decreases k,
{
    if k > 0 {
        let t = s.drop_first();
        assert forall|j: int| 0 <= j < k - 1 implies #[trigger] t[j] != 10u8 by {
            assert(t[j] == s[j + 1]);
        }
        if k < s.len() {
            assert(t[k - 1] == s[k]);
        }
        assert(s[0] != 10u8);
        lemma_line_end(t, k - 1);
    }
}

proof fn lemma_line_end_facts(s: Seq<u8>)
    ensures
        0 <= line_end(s) <= s.len(),
        forall|j: int| 0 <= j < line_end(s) ==> #[trigger] s[j] != 10u8,
        line_end(s) < s.len() ==> s[line_end(s)] == 10u8,
    decreases s.len(),
{
    if s.len() > 0 && s[0] != 10u8 {
        let t = s.drop_first();
        lemma_line_end_facts(t);
        assert forall|j: int| 0 <= j < line_end(s) implies #[trigger] s[j] != 10u8 by {
            if j > 0 {
                assert(s[j] == t[j - 1]);
            }
        }
        if line_end(s) < s.len() {
            assert(s[line_end(s)] == t[line_end(t)]);
        }
    }
}

/// Law: an answer that reads as `Ok((id, picture))` is its first line, which
/// holds no line feed and reads as `id`, then one line feed, then `picture`:
/// the picture is every byte after the first line feed, and there are
/// `s.len() - line_end(s) - 1` of them.
pub proof fn lemma_status_layout(s: Seq<u8>)
    ensures
        parse_status_spec(s) matches Ok((id, picture)) ==> {
            &&& s == first_line(s) + seq![10u8] + picture
            &&& picture.len() == s.len() - line_end(s) - 1
            &&& forall|j: int| 0 <= j < first_line(s).len() ==> #[trigger] first_line(s)[j] != 10u8
            &&& parse_i32_spec(first_line(s)) == Ok::<i32, IntErrorKind>(id)
        },
        parse_status_spec(s) is Err <==> (first_line(s) == s || parse_i32_spec(first_line(s)) is Err
            || !vstd::utf8::valid_utf8(first_line(s))),
{
    lemma_line_end_facts(s);
    let k = line_end(s);
    if k < s.len() {
        assert(s =~= s.take(k) + seq![10u8] + s.skip(k + 1));
    } else {
        assert(s.take(k) =~= s);
    }
    if first_line(s) == s {
        assert(first_line(s).len() == s.len());
    }
}

/// Reads the server's answer: the picture id on the first line and the
/// picture's bytes after it. A failure carries the first line when that
/// line is at fault.
pub fn parse_meme_status(response: &[u8]) -> (r: Result<(i32, Vec<u8>), StatusError>)
    ensures
        match (r, parse_status_spec(response@)) {
            (Ok((id, picture)), Ok((sid, spicture))) => id == sid && picture@ == spicture,
            (Err(StatusError::NotUtf8 { line }), Err(StatusFailure::NotUtf8)) => line@ == first_line(
                response@,
            ),
            (Err(StatusError::BadMemeId { line, kind }), Err(StatusFailure::BadMemeId(skind))) => line@
                == first_line(response@) && kind == skind,
            (Err(StatusError::MissingPicture), Err(StatusFailure::MissingPicture)) => true,
            _ => false,
        },
        r matches Ok((id, picture)) ==> response@ == first_line(response@) + seq![10u8] + picture@
            && parse_i32_spec(first_line(response@)) == Ok::<i32, IntErrorKind>(id),
{
    proof {
        lemma_status_layout(response@);
    }
    let len = response.len();
    let mut k: usize = 0;
    while k < len
        invariant
            k <= len,
            len == response@.len(),
            forall|j: int| 0 <= j < k ==> #[trigger] response@[j] != 10u8,
        ensures
            k <= len,
            forall|j: int| 0 <= j < k ==> #[trigger] response@[j] != 10u8,
            k == len || response@[k as int] == 10u8,
        decreases len - k,
    {
        if response[k] == 10u8 {
            break;
        }
        k = k + 1;
    }
    proof {
        lemma_line_end(response@, k as int);
    }
    let head = slice_prefix(response, k);
    if !is_utf8(head) {
        return Err(StatusError::NotUtf8 { line: vstd::slice::slice_to_vec(head) });
    }
    let id = match parse_i32(head) {
        Ok(id) => id,
        Err(kind) => {
            return Err(StatusError::BadMemeId { line: vstd::slice::slice_to_vec(head), kind });
        },
    };
    if k == len {
        return Err(StatusError::MissingPicture);
    }
    let mut picture: Vec<u8> = Vec::new();
    let mut i = k + 1;
    while i < len
        invariant
            k < i <= len,
            len == response@.len(),
            picture@ == response@.subrange(k + 1, i as int),
        decreases len - i,
    {
        picture.push(response[i]);
        assert(picture@ =~= response@.subrange(k + 1, i + 1));
        i = i + 1;
    }
    assert(picture@ =~= response@.skip(k + 1));
    Ok((id, picture))
}

/// The first `n` bytes of `s`.
fn slice_prefix(s: &[u8], n: usize) -> (r: &[u8])
    requires
        n <= s@.len(),
    ensures
        r@ == s@.take(n as int),
{
    let r = vstd::slice::slice_subrange(s, 0, n);
    assert(r@ =~= s@.take(n as int));
    r
}

} // verus!
