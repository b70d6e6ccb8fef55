//! Colors: `#rrggbb` parsing, inversion, and the `name=hex` candidate lists
//! that the closest-color search picks from.

use vstd::prelude::*;
use vstd::utf8::{encode_utf8, is_continuation_byte};
use vstd::string::StringSliceAdditionalSpecFns;
use crate::text::{chars_of, range_string, skip_leading, strip_leading, trim, trim_range};

verus! {

/// A color as red, green and blue bytes.
pub type Rgb = (u8, u8, u8);

/// Why a hex color was refused.
#[derive(Debug, Clone, Copy, PartialEq, Eq)]
pub enum HexError {
    /// Not six bytes once the leading `#`s are dropped.
    InvalidLength,
    /// A two-byte channel is not a hexadecimal number.
    InvalidDigit,
}

/// `bytes` without any leading `#`.
pub open spec fn strip_hashes(bytes: Seq<u8>) -> Seq<u8>
    decreases bytes.len(),
{
    if bytes.len() > 0 && bytes[0] == 35u8 {
        strip_hashes(bytes.drop_first())
    } else {
        bytes
    }
}

/// The value of a hexadecimal digit (either case).
pub open spec fn hex_value(c: u8) -> Option<nat> {
    if 48 <= c <= 57 {
        Some((c - 48) as nat)
    } else if 65 <= c <= 70 {
        Some((c - 55) as nat)
    } else if 97 <= c <= 102 {
        Some((c - 87) as nat)
    } else {
        None
    }
}

/// The value of a two-byte channel: exactly two hexadecimal digits.
pub open spec fn channel_value(a: u8, b: u8) -> Option<u8> {
    if hex_value(a) is Some && hex_value(b) is Some {
        Some((hex_value(a)->0 * 16 + hex_value(b)->0) as u8)
    } else {
        None
    }
}

/// Cutting the stripped color into its three channels would split a
/// character: the six bytes hold a multi-byte character across offset 2 or 4.
pub open spec fn hex_split_breaks_char(bytes: Seq<u8>) -> bool {
    let t = strip_hashes(bytes);
    t.len() == 6 && (is_continuation_byte(t[2]) || is_continuation_byte(t[4]))
}

/// The color that the UTF-8 bytes of `#rrggbb` (any number of leading `#`)
/// denote.
pub open spec fn parse_hex(bytes: Seq<u8>) -> Result<Rgb, HexError> {
    let t = strip_hashes(bytes);
    if t.len() != 6 {
        Err(HexError::InvalidLength)
    } else {
        match (channel_value(t[0], t[1]), channel_value(t[2], t[3]), channel_value(t[4], t[5])) {
            (Some(r), Some(g), Some(b)) => Ok((r, g, b)),
            _ => Err(HexError::InvalidDigit),
        }
    }
}

fn hex_digit_value(c: u8) -> (v: Option<u8>)
    ensures
        v matches Some(x) ==> hex_value(c) == Some(x as nat) && x < 16,
        v is None ==> hex_value(c) is None,
{
    if 48 <= c && c <= 57 {
        Some(c - 48)
    } else if 65 <= c && c <= 70 {
        Some(c - 55)
    } else if 97 <= c && c <= 102 {
        Some(c - 87)
    } else {
        None
    }
}

fn channel(a: u8, b: u8) -> (v: Option<u8>)
    ensures
        v == channel_value(a, b),
{
    match (hex_digit_value(a), hex_digit_value(b)) {
        (Some(x), Some(y)) => Some(x * 16 + y),
        _ => None,
    }
}

/// The number of leading `#` bytes.
fn leading_hashes(b: &[u8]) -> (k: usize)
    ensures
        k <= b@.len(),
        strip_hashes(b@) == b@.subrange(k as int, b@.len() as int),
{
    let mut k: usize = 0;
    assert(b@.subrange(0, b@.len() as int) =~= b@);
    while k < b.len() && b[k] == 35u8
        invariant
            k <= b@.len(),
            strip_hashes(b@) == strip_hashes(b@.subrange(k as int, b@.len() as int)),
        decreases b@.len() - k,
    {
        assert(b@.subrange(k as int, b@.len() as int).drop_first() =~= b@.subrange(
            k + 1,
            b@.len() as int,
        ));
        k += 1;
    }
    k
}

/// Reads a color from UTF-8 bytes; `None` where cutting the channels would
/// split a character.
pub(crate) fn scan_hex_bytes(b: &[u8]) -> (r: Option<Result<Rgb, HexError>>)
    ensures
        r is None <==> hex_split_breaks_char(b@),
        r matches Some(x) ==> x == parse_hex(b@),
{
    let k = leading_hashes(b);
    if b.len() - k != 6 {
        return Some(Err(HexError::InvalidLength));
    }
    let t = Ghost(strip_hashes(b@));
    assert(t@[2] == b@[k + 2] && t@[4] == b@[k + 4]);
    if (0x80 <= b[k + 2] && b[k + 2] <= 0xbf) || (0x80 <= b[k + 4] && b[k + 4] <= 0xbf) {
        return None;
    }
    assert(t@[0] == b@[k as int] && t@[1] == b@[k + 1] && t@[3] == b@[k + 3] && t@[5] == b@[k
        + 5]);
    match (channel(b[k], b[k + 1]), channel(b[k + 2], b[k + 3]), channel(b[k + 4], b[k + 5])) {
        (Some(r), Some(g), Some(bl)) => Some(Ok((r, g, bl))),
        _ => Some(Err(HexError::InvalidDigit)),
    }
}

/// Whether reading `hex` as a color would cut a multi-byte character in
/// two; `hex_to_rgb` is not defined on such input.
pub fn hex_would_break_char(hex: &str) -> (b: bool)
    ensures
        b == hex_split_breaks_char(hex.spec_bytes()),
{
    scan_hex_bytes(hex.as_bytes()).is_none()
}

/// Parses `#rrggbb`. Leading `#`s are optional; each channel is exactly two
/// hexadecimal digits of either case, and anything else is `InvalidDigit`.
pub fn hex_to_rgb(hex: &str) -> (res: Result<Rgb, HexError>)
    requires
        !hex_split_breaks_char(hex.spec_bytes()),
    ensures
        res == parse_hex(hex.spec_bytes()),
{
    match scan_hex_bytes(hex.as_bytes()) {
        Some(r) => r,
        None => Err(HexError::InvalidLength),
    }
}

/// The complementary color.
pub open spec fn inverted(c: Rgb) -> Rgb {
    ((255 - c.0) as u8, (255 - c.1) as u8, (255 - c.2) as u8)
}

/// The complementary color, channel by channel.
pub fn invert_color(r: u8, g: u8, b: u8) -> (res: Rgb)
    ensures
        res == inverted((r, g, b)),
        res.0 + r == 255 && res.1 + g == 255 && res.2 + b == 255,
{
    (255 - r, 255 - g, 255 - b)
}

/// A named color of a `--match` list.
#[derive(Debug, PartialEq, Eq)]
pub struct Candidate {
    pub name: String,
    pub rgb: Rgb,
}

impl View for Candidate {
    type V = (Seq<char>, Rgb);

    open spec fn view(&self) -> (Seq<char>, Rgb) {
        (self.name@, self.rgb)
    }
}

/// Why a candidate list was refused.
#[derive(Debug, Clone, PartialEq, Eq)]
pub enum CandidateError {
    /// An entry (trimmed) that is not `name=hex` with both sides non-empty.
    InvalidEntry(String),
    /// An entry (trimmed) whose color does not parse.
    InvalidHex(String, HexError),
    /// No entry at all.
    Empty,
}

/// `CandidateError` with its texts as character sequences.
pub enum CandidateFault {
    InvalidEntry(Seq<char>),
    InvalidHex(Seq<char>, HexError),
    Empty,
}

impl View for CandidateError {
    type V = CandidateFault;

    open spec fn view(&self) -> CandidateFault {
        match self {
            CandidateError::InvalidEntry(e) => CandidateFault::InvalidEntry(e@),
            CandidateError::InvalidHex(e, h) => CandidateFault::InvalidHex(e@, *h),
            CandidateError::Empty => CandidateFault::Empty,
        }
    }
}

/// The pieces of `s` between the occurrences of `sep` (one piece more than
/// there are separators), as `str::split` yields them.
pub open spec fn split_on(s: Seq<char>, sep: char) -> Seq<Seq<char>>
    decreases s.len(),
{
    if s.len() == 0 {
        seq![Seq::empty()]
    } else {
        let p = split_on(s.drop_last(), sep);
        if s.last() == sep {
            p.push(Seq::empty())
        } else {
            p.update(p.len() - 1, p.last().push(s.last()))
        }
    }
}

/// The index of the first `c` in `s`.
pub open spec fn first_index(s: Seq<char>, c: char) -> Option<int>
    decreases s.len(),
{
    if s.len() == 0 {
        None
    } else if s[0] == c {
        Some(0)
    } else {
        match first_index(s.drop_first(), c) {
            Some(k) => Some(k + 1),
            None => None,
        }
    }
}

/// What one piece of a candidate list yields.
pub enum EntryParse {
    Skip,
    Named(Seq<char>, Rgb),
    Refused(CandidateFault),
}

/// The name and color text of a trimmed entry: the trimmed sides of its
/// first `=`, or two empty texts where it has none.
pub open spec fn entry_sides(entry: Seq<char>) -> (Seq<char>, Seq<char>) {
    match first_index(entry, '=') {
        Some(k) => (trim(entry.take(k)), trim(entry.skip(k + 1))),
        None => (Seq::empty(), Seq::empty()),
    }
}

/// The UTF-8 bytes of an entry's color text once its leading `#`s are
/// dropped.
pub open spec fn entry_color_bytes(hex: Seq<char>) -> Seq<u8> {
    encode_utf8(strip_leading(hex, '#'))
}

/// What a raw piece of a candidate list yields: nothing for a blank piece,
/// else a named color or the reason it is refused.
pub open spec fn parse_entry(raw: Seq<char>) -> EntryParse {
    let entry = trim(raw);
    if entry.len() == 0 {
        EntryParse::Skip
    } else {
        let (name, hex) = entry_sides(entry);
        if name.len() == 0 || hex.len() == 0 {
            EntryParse::Refused(CandidateFault::InvalidEntry(entry))
        } else {
            match parse_hex(entry_color_bytes(hex)) {
                Ok(rgb) => EntryParse::Named(name, rgb),
                Err(e) => EntryParse::Refused(CandidateFault::InvalidHex(entry, e)),
            }
        }
    }
}

/// Reading the color of this piece would cut a character in two.
pub open spec fn entry_breaks_char(raw: Seq<char>) -> bool {
    let entry = trim(raw);
    let (name, hex) = entry_sides(entry);
    entry.len() != 0 && name.len() != 0 && hex.len() != 0 && hex_split_breaks_char(
        entry_color_bytes(hex),
    )
}

/// The candidates of the pieces, in order, or the first refusal.
pub open spec fn parse_entries(ps: Seq<Seq<char>>) -> Result<Seq<(Seq<char>, Rgb)>, CandidateFault>
    decreases ps.len(),
{
    if ps.len() == 0 {
        Ok(Seq::empty())
    } else {
        match parse_entries(ps.drop_last()) {
            Err(e) => Err(e),
            Ok(acc) => match parse_entry(ps.last()) {
                EntryParse::Skip => Ok(acc),
                EntryParse::Named(n, c) => Ok(acc.push((n, c))),
                EntryParse::Refused(e) => Err(e),
            },
        }
    }
}

/// Some piece, reached before any refusal, would cut a character in two.
pub open spec fn entries_break_char(ps: Seq<Seq<char>>) -> bool
    decreases ps.len(),
{
    ps.len() > 0 && (entries_break_char(ps.drop_last()) || (parse_entries(ps.drop_last()) is Ok
        && entry_breaks_char(ps.last())))
}

/// The candidates of a comma-separated `name=hex` list: blank pieces are
/// skipped, and a list with no candidate is refused.
pub open spec fn parse_candidates(list: Seq<char>) -> Result<Seq<(Seq<char>, Rgb)>, CandidateFault> {
    match parse_entries(split_on(list, ',')) {
        Ok(cs) => if cs.len() == 0 {
            Err(CandidateFault::Empty)
        } else {
            Ok(cs)
        },
        Err(e) => Err(e),
    }
}

/// The views of a vector of candidates.
pub open spec fn candidates_view(v: Seq<Candidate>) -> Seq<(Seq<char>, Rgb)> {
    v.map_values(|c: Candidate| c@)
}

/// Extending a text by characters other than `sep` extends its last piece.
pub proof fn lemma_split_extend(s: Seq<char>, start: int, end: int, sep: char)
    requires
        0 <= start <= end <= s.len(),
        forall|j: int| start <= j < end ==> s[j] != sep,
    ensures
        split_on(s.take(end), sep) == split_on(s.take(start), sep).update(
            split_on(s.take(start), sep).len() - 1,
            split_on(s.take(start), sep).last() + s.subrange(start, end),
        ),
        split_on(s.take(end), sep).len() == split_on(s.take(start), sep).len(),
    decreases end - start,
{
    lemma_split_nonempty(s.take(start), sep);
    if end == start {
        assert(s.subrange(start, end) =~= Seq::empty());
        assert(split_on(s.take(start), sep).last() + s.subrange(start, end) =~= split_on(s.take(start), sep).last());
        assert(split_on(s.take(start), sep).update(
            split_on(s.take(start), sep).len() - 1,
            split_on(s.take(start), sep).last(),
        ) =~= split_on(s.take(start), sep));
    } else {
        lemma_split_extend(s, start, end - 1, sep);
        assert(s.take(end).drop_last() =~= s.take(end - 1));
        assert(s.take(end).last() == s[end - 1]);
        assert(s.subrange(start, end) =~= s.subrange(start, end - 1).push(s[end - 1]));
        let p = split_on(s.take(start), sep);
        let q = split_on(s.take(end - 1), sep);
        assert(q.last() == p.last() + s.subrange(start, end - 1));
        assert(split_on(s.take(end), sep) =~= p.update(
            p.len() - 1,
            p.last() + s.subrange(start, end),
        ));
    }
}

/// Splitting gives at least one piece.
pub proof fn lemma_split_nonempty(s: Seq<char>, sep: char)
    ensures
        split_on(s, sep).len() >= 1,
    decreases s.len(),
{
    if s.len() > 0 {
        lemma_split_nonempty(s.drop_last(), sep);
    }
}

/// `first_index` read off a scan.
proof fn lemma_first_index(s: Seq<char>, c: char, k: int)
    requires
        0 <= k <= s.len(),
        forall|j: int| 0 <= j < k ==> s[j] != c,
        k < s.len() ==> s[k] == c,
    ensures
        first_index(s, c) == (if k < s.len() {
            Some(k)
        } else {
            None::<int>
        }),
    decreases s.len(),
{
    if s.len() > 0 && k > 0 {
        lemma_first_index(s.drop_first(), c, k - 1);
    }
}

/// The first `c` in `v[lo..hi]`.
pub(crate) fn find_char(v: &Vec<char>, lo: usize, hi: usize, c: char) -> (r: Option<usize>)
    requires
        lo <= hi <= v@.len(),
    ensures
        match r {
            Some(k) => lo <= k < hi && first_index(v@.subrange(lo as int, hi as int), c) == Some(
                k - lo,
            ) && v@[k as int] == c,
            None => first_index(v@.subrange(lo as int, hi as int), c) is None,
        },
        forall|j: int| lo <= j < (if r is Some { r->0 as int } else { hi as int }) ==> v@[j] != c,
{
    let mut k = lo;
    while k < hi
        invariant
            lo <= k <= hi <= v@.len(),
            forall|j: int| lo <= j < k ==> v@[j] != c,
        decreases hi - k,
    {
        if v[k] == c {
            proof {
                lemma_first_index(v@.subrange(lo as int, hi as int), c, k - lo);
            }
            return Some(k);
        }
        k += 1;
    }
    proof {
        lemma_first_index(v@.subrange(lo as int, hi as int), c, hi - lo);
    }
    None
}

enum EntryStep {
    Skip,
    Named(Candidate),
    Refused(CandidateError),
    Breaks,
}

/// One piece `v[lo..hi]` of a candidate list.
fn scan_entry(v: &Vec<char>, lo: usize, hi: usize) -> (r: EntryStep)
    requires
        lo <= hi <= v@.len(),
    ensures
        r is Breaks <==> entry_breaks_char(v@.subrange(lo as int, hi as int)),
        match (r, parse_entry(v@.subrange(lo as int, hi as int))) {
            (EntryStep::Breaks, _) => true,
            (EntryStep::Skip, EntryParse::Skip) => true,
            (EntryStep::Named(c), EntryParse::Named(n, rgb)) => c@ == (n, rgb),
            (EntryStep::Refused(e), EntryParse::Refused(f)) => e@ == f,
            _ => false,
        },
{
    let ghost raw = v@.subrange(lo as int, hi as int);
    let (a, b) = trim_range(v, lo, hi);
    let ghost entry = v@.subrange(a as int, b as int);
    if a == b {
        return EntryStep::Skip;
    }
    let (n0, n1, h0, h1) = match find_char(v, a, b, '=') {
        Some(k) => {
            let (n0, n1) = trim_range(v, a, k);
            let (h0, h1) = trim_range(v, k + 1, b);
            assert(entry.take(k - a) =~= v@.subrange(a as int, k as int));
            assert(entry.skip(k - a + 1) =~= v@.subrange(k + 1, b as int));
            (n0, n1, h0, h1)
        },
        None => (a, a, a, a),
    };
    proof {
        assert(entry_sides(entry).0 =~= v@.subrange(n0 as int, n1 as int));
        assert(entry_sides(entry).1 =~= v@.subrange(h0 as int, h1 as int));
    }
    if n0 == n1 || h0 == h1 {
        return EntryStep::Refused(CandidateError::InvalidEntry(range_string(v, a, b)));
    }
    let hs = skip_leading(v, h0, h1, '#');
    let color = range_string(v, hs, h1);
    match scan_hex_bytes(color.as_str().as_bytes()) {
        None => EntryStep::Breaks,
        Some(Ok(rgb)) => EntryStep::Named(Candidate { name: range_string(v, n0, n1), rgb }),
        Some(Err(e)) => EntryStep::Refused(CandidateError::InvalidHex(range_string(v, a, b), e)),
    }
}

/// Reads a candidate list, or answers `None` where reading a color would cut
/// a multi-byte character in two.
pub fn scan_candidate_list(list: &str) -> (r: Option<Result<Vec<Candidate>, CandidateError>>)
    ensures
        r is None <==> entries_break_char(split_on(list@, ',')),
        r matches Some(x) ==> match (x, parse_candidates(list@)) {
            (Ok(cs), Ok(spec)) => candidates_view(cs@) == spec,
            (Err(e), Err(f)) => e@ == f,
            _ => false,
        },
{
    let v = chars_of(list);
    let len = v.len();
    let mut out: Vec<Candidate> = Vec::new();
    let mut failed: Option<CandidateError> = None;
    let mut broke = false;
    let mut start: usize = 0;
    let ghost mut done: Seq<Seq<char>> = Seq::empty();
    assert(v@.take(0) =~= Seq::<char>::empty());
    assert(split_on(v@.take(0), ',') =~= done.push(Seq::empty()));
    loop
        invariant_except_break
            start <= len,
            split_on(v@.take(start as int), ',') == done.push(Seq::empty()),
        invariant
            len == v@.len(),
            v@ == list@,
            broke == entries_break_char(done),
            !broke ==> match (failed, parse_entries(done)) {
                (None, Ok(cs)) => candidates_view(out@) == cs,
                (Some(e), Err(f)) => e@ == f,
                _ => false,
            },
        ensures
            split_on(v@, ',') == done,
        decreases len - start,
    {
        let found = find_char(&v, start, len, ',');
        let end = match found {
            Some(k) => k,
            None => len,
        };
        proof {
            lemma_split_extend(v@, start as int, end as int, ',');
            assert(split_on(v@.take(end as int), ',') =~= done.push(
                v@.subrange(start as int, end as int),
            ));
        }
        let ghost piece = v@.subrange(start as int, end as int);
        let ghost next = done.push(piece);
        assert(next.drop_last() =~= done);
        if !broke && failed.is_none() {
            match scan_entry(&v, start, end) {
                EntryStep::Skip => {},
                EntryStep::Named(c) => {
                    let ghost before = out@;
                    let ghost cv = c@;
                    out.push(c);
                    assert(candidates_view(out@) =~= candidates_view(before).push(cv));
                },
                EntryStep::Refused(e) => {
                    failed = Some(e);
                },
                EntryStep::Breaks => {
                    broke = true;
                },
            }
        }
        proof {
            done = next;
        }
        if end == len {
            assert(v@.take(len as int) =~= v@);
            assert(split_on(v@, ',') == done);
            break;
        }
        proof {
            assert(v@.take(end + 1).drop_last() =~= v@.take(end as int));
            assert(split_on(v@.take(end + 1), ',') =~= done.push(Seq::empty()));
        }
        start = end + 1;
    }
    if broke {
        None
    } else {
        match failed {
            Some(e) => Some(Err(e)),
            None => {
                if out.len() == 0 {
                    Some(Err(CandidateError::Empty))
                } else {
                    Some(Ok(out))
                }
            },
        }
    }
}

/// Parses a comma-separated `name=hex` list (as given to `--match`). Each
/// piece is trimmed; blank pieces are skipped; name and color are the trimmed
/// sides of the first `=`.
pub fn parse_candidate_list(list: &str) -> (res: Result<Vec<Candidate>, CandidateError>)
    requires
        !entries_break_char(split_on(list@, ',')),
    ensures
        res matches Ok(cs) ==> cs@.len() > 0,
        match (res, parse_candidates(list@)) {
            (Ok(cs), Ok(spec)) => candidates_view(cs@) == spec,
            (Err(e), Err(f)) => e@ == f,
            _ => false,
        },
{
    match scan_candidate_list(list) {
        Some(r) => r,
        None => Err(CandidateError::Empty),
    }
}

/// `i` is the first index at which `keys` is smallest.
pub open spec fn is_first_min(keys: Seq<u64>, i: int) -> bool {
    &&& 0 <= i < keys.len()
    &&& forall|j: int| 0 <= j < keys.len() ==> keys[i] <= keys[j]
    &&& forall|j: int| 0 <= j < i ==> keys[j] > keys[i]
}

/// The candidate closest to `hex`, given for each candidate a key that orders
/// the candidates by their distance to `hex` (ties: the earliest candidate;
/// no candidate: index 0).
pub fn nearest_candidate(hex: &str, candidates: &[Candidate], distance_keys: &[u64]) -> (res:
    Result<usize, HexError>)
    requires
        !hex_split_breaks_char(hex.spec_bytes()),
        distance_keys@.len() == candidates@.len(),
    ensures
        parse_hex(hex.spec_bytes()) matches Err(e) ==> res == Err::<usize, HexError>(e),
        parse_hex(hex.spec_bytes()) is Ok ==> (res matches Ok(i) && (if candidates@.len() == 0 {
            i == 0
        } else {
            is_first_min(distance_keys@, i as int)
        })),
{
    match hex_to_rgb(hex) {
        Err(e) => Err(e),
        Ok(_) => {
            let mut best: usize = 0;
            let mut k: usize = 1;
            if distance_keys.len() == 0 {
                return Ok(0);
            }
            while k < distance_keys.len()
                invariant
                    1 <= k <= distance_keys@.len(),
                    best < k,
                    forall|j: int| 0 <= j < k ==> distance_keys@[best as int] <= distance_keys@[j],
                    forall|j: int| 0 <= j < best ==> distance_keys@[j] > distance_keys@[best as int],
                decreases distance_keys@.len() - k,
            {
                if distance_keys[k] < distance_keys[best] {
                    best = k;
                }
                k += 1;
            }
            Ok(best)
        },
    }
}

/// Whether writing `bytes` to a file changes it: the file could not be read
/// (`existing` is `None`), or it holds other bytes.
pub fn needs_write(existing: Option<&[u8]>, bytes: &[u8]) -> (r: bool)
    ensures
        r == match existing {
            None => true,
            Some(e) => e@ != bytes@,
        },
{
    match existing {
        None => true,
        Some(e) => {
            if e.len() != bytes.len() {
                assert(e@.len() != bytes@.len());
                return true;
            }
            let mut k: usize = 0;
            while k < e.len()
                invariant
                    k <= e@.len(),
                    existing == Some(e),
                    e@.len() == bytes@.len(),
                    forall|j: int| 0 <= j < k ==> e@[j] == bytes@[j],
                decreases e@.len() - k,
            {
                if e[k] != bytes[k] {
                    assert(e@[k as int] != bytes@[k as int]);
                    return true;
                }
                k += 1;
            }
            assert(e@ =~= bytes@);
            false
        },
    }
}

/// Law: complementing twice gives the color back.
pub proof fn law_invert_involution(c: Rgb)
    ensures
        inverted(inverted(c)) == c,
{
}

/// A hexadecimal digit reads back as its value.
pub proof fn lemma_hex_digit_value(d: nat, upper: bool)
    requires
        d < 16,
    ensures
        hex_value(crate::text::hex_digit(d, upper) as u8) == Some(d),
{
}

/// The two digits of a byte read back as the byte.
pub proof fn lemma_channel_of_hex2(v: u8, upper: bool)
    ensures
        channel_value(crate::text::hex2(v, upper)[0] as u8, crate::text::hex2(v, upper)[1] as u8)
            == Some(v),
{
    lemma_hex_digit_value(v as nat / 16, upper);
    lemma_hex_digit_value(v as nat % 16, upper);
}

/// The answer of a `--match` query: `NAME:#RRGGBB`.
pub fn match_line(c: &Candidate) -> (s: String)
    ensures
        s@ == c.name@ + ":"@ + crate::fade::hex_text(c.rgb, false),
{
    let mut v = chars_of(c.name.as_str());
    crate::text::push_str(&mut v, ":#");
    crate::text::push_hex2(&mut v, c.rgb.0, true);
    crate::text::push_hex2(&mut v, c.rgb.1, true);
    crate::text::push_hex2(&mut v, c.rgb.2, true);
    proof {
        reveal_strlit(":#");
        reveal_strlit(":");
        reveal_strlit("#");
    }
    assert(v@ =~= c.name@ + ":"@ + crate::fade::hex_text(c.rgb, false));
    crate::text::string_from_chars(v.as_slice())
}

} // verus!
