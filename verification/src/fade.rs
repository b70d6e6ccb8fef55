//! Template rendering: the prepared palette, the `[vars]` context, the
//! `{{col.N.fmt | mods}}` / `{{var.name}}` placeholder language, and the
//! checks and assembly around each configured template.

use vstd::prelude::*;
use vstd::utf8::encode_utf8;
use crate::text::{
    chars_of, dec, dec_pad2, dec_signed, hex2, push_dec, push_dec_pad2, push_dec_signed, push_hex2,
    push_range, push_str, range_eq, range_eq_str, range_string, string_from_chars, trim, trim_end,
    trim_end_range, trim_range,
};
use crate::utils::{
    find_char, first_index, hex_split_breaks_char, lemma_split_extend, inverted, invert_color, parse_hex, scan_hex_bytes,
    split_on, HexError, Rgb,
};

verus! {

/// A CSS `hsl()` triple: hue in degrees, saturation and lightness in percent.
pub type Hsl = (i32, i32, i32);

/// A palette color as the renderer sees it: its channels, its CSS `hsl()`
/// triple, and the `hsl()` triple of its complement.
pub type ColorModel = (Rgb, Hsl, Hsl);

/// `r, g, b` in decimal, with `rgb(..)` around it unless stripped.
pub open spec fn rgb_text(c: Rgb, strip: bool) -> Seq<char> {
    let body = dec(c.0 as nat) + ", "@ + dec(c.1 as nat) + ", "@ + dec(c.2 as nat);
    if strip {
        body
    } else {
        "rgb("@ + body + ")"@
    }
}

/// `RRGGBB` in upper-case hexadecimal, with a leading `#` unless stripped.
pub open spec fn hex_text(c: Rgb, strip: bool) -> Seq<char> {
    let body = hex2(c.0, true) + hex2(c.1, true) + hex2(c.2, true);
    if strip {
        body
    } else {
        "#"@ + body
    }
}

/// `h, s%, l%`, with `hsl(..)` around it unless stripped.
pub open spec fn hsl_text(h: Hsl, strip: bool) -> Seq<char> {
    let body = dec_signed(h.0 as int) + ", "@ + dec_signed(h.1 as int) + "%, "@ + dec_signed(
        h.2 as int,
    ) + "%"@;
    if strip {
        body
    } else {
        "hsl("@ + body + ")"@
    }
}

/// A unit of rendered output: a character (by its code point), or the alpha value of an
/// `rgba` placeholder given as the text after `alpha:` (trimmed), `None`
/// for the default.
pub enum Token {
    Char(u32),
    Alpha(Option<Seq<char>>),
}

/// The characters of `s` as output.
pub open spec fn text_tokens(s: Seq<char>) -> Seq<Token>
    decreases s.len(),
{
    if s.len() == 0 {
        Seq::empty()
    } else {
        text_tokens(s.drop_last()).push(Token::Char(s.last() as u32))
    }
}

/// What a stretch of template renders to, with its counts; `faulted` when
/// rendering it reads past the gradient or cuts a character of a variable in
/// two.
pub struct RenderOut {
    pub tokens: Seq<Token>,
    pub replacements: nat,
    pub errors: nat,
    pub faulted: bool,
}

/// Plain text, copied out.
pub open spec fn out_text(s: Seq<char>) -> RenderOut {
    RenderOut { tokens: text_tokens(s), replacements: 0, errors: 0, faulted: false }
}

/// A placeholder replaced by `t`.
pub open spec fn out_replaced(t: Seq<Token>) -> RenderOut {
    RenderOut { tokens: t, replacements: 1, errors: 0, faulted: false }
}

/// An error marker `s`, counted as an error.
pub open spec fn out_error(s: Seq<char>) -> RenderOut {
    RenderOut { tokens: text_tokens(s), replacements: 0, errors: 1, faulted: false }
}

/// Rendering cannot go on.
pub open spec fn out_fault() -> RenderOut {
    RenderOut { tokens: Seq::empty(), replacements: 0, errors: 0, faulted: true }
}

/// `a` followed by `b`; nothing follows a fault.
pub open spec fn then(a: RenderOut, b: RenderOut) -> RenderOut {
    if a.faulted {
        a
    } else {
        RenderOut {
            tokens: a.tokens + b.tokens,
            replacements: a.replacements + b.replacements,
            errors: a.errors + b.errors,
            faulted: b.faulted,
        }
    }
}

/// The first index `k >= from` where `s[k] == a` and `s[k + 1] == b`.
pub open spec fn find_pair(s: Seq<char>, from: int, a: char, b: char) -> Option<int>
    decreases s.len() - from,
{
    if from < 0 || from + 2 > s.len() {
        None
    } else if s[from] == a && s[from + 1] == b {
        Some(from)
    } else {
        find_pair(s, from + 1, a, b)
    }
}

/// The first index `k >= from` where `s[k]` is `a` or `b`, else `s.len()`.
pub open spec fn scan_to(s: Seq<char>, from: int, a: char, b: char) -> int
    decreases s.len() - from,
{
    if from < 0 || from >= s.len() {
        s.len() as int
    } else if s[from] == a || s[from] == b {
        from
    } else {
        scan_to(s, from + 1, a, b)
    }
}

/// `s[i..]` starts with `{{` followed by the four characters of `word`.
pub open spec fn tag_at(s: Seq<char>, i: int, word: Seq<char>) -> bool {
    0 <= i && i + 6 <= s.len() && s[i] == '{' && s[i + 1] == '{' && s.subrange(i + 2, i + 6)
        == word
}

/// A non-empty run of ASCII digits.
pub open spec fn all_digits(s: Seq<char>) -> bool {
    s.len() > 0 && forall|k: int| 0 <= k < s.len() ==> '0' <= #[trigger] s[k] && s[k] <= '9'
}

/// The number that a run of decimal digits denotes.
pub open spec fn digits_value(s: Seq<char>) -> nat
    decreases s.len(),
{
    if s.len() == 0 {
        0
    } else {
        digits_value(s.drop_last()) * 10 + ((s.last() as int - 48) as nat)
    }
}

/// The modifiers after `|` in a color placeholder.
pub struct Mods {
    pub alpha: Option<Seq<char>>,
    pub strip: bool,
    pub invert: bool,
}

/// No modifier given.
pub open spec fn no_mods() -> Mods {
    Mods { alpha: None, strip: false, invert: false }
}

/// One `|`-separated modifier (trimmed): `alpha:<value>`, `invert`, `strip`;
/// anything else is ignored.
pub open spec fn apply_mod(m: Mods, part: Seq<char>) -> Mods {
    let t = trim(part);
    if t.len() >= 6 && t.take(6) == "alpha:"@ {
        Mods { alpha: Some(trim(t.skip(6))), ..m }
    } else if t == "invert"@ {
        Mods { invert: true, ..m }
    } else if t == "strip"@ {
        Mods { strip: true, ..m }
    } else {
        m
    }
}

/// The modifiers in order; a later `alpha:` wins.
pub open spec fn mods_of(parts: Seq<Seq<char>>) -> Mods
    decreases parts.len(),
{
    if parts.len() == 0 {
        no_mods()
    } else {
        apply_mod(mods_of(parts.drop_last()), parts.last())
    }
}

/// The output of a resolved color placeholder in format `fmt`.
pub open spec fn color_out(c: ColorModel, fmt: Seq<char>, m: Mods) -> RenderOut {
    let rgb = if m.invert {
        inverted(c.0)
    } else {
        c.0
    };
    let hsl = if m.invert {
        c.2
    } else {
        c.1
    };
    if fmt == "hex"@ {
        out_replaced(text_tokens(hex_text(rgb, m.strip)))
    } else if fmt == "rgb"@ {
        out_replaced(text_tokens(rgb_text(rgb, m.strip)))
    } else if fmt == "rgba"@ {
        let body = dec(rgb.0 as nat) + ","@ + dec(rgb.1 as nat) + ","@ + dec(rgb.2 as nat) + ","@;
        if m.strip {
            out_replaced(text_tokens(body) + seq![Token::Alpha(m.alpha)])
        } else {
            out_replaced(
                text_tokens("rgba("@ + body) + seq![Token::Alpha(m.alpha)] + text_tokens(")"@),
            )
        }
    } else if fmt == "hsl"@ {
        out_replaced(text_tokens(hsl_text(hsl, m.strip)))
    } else {
        RenderOut {
            tokens: text_tokens("{{ INVALID_FORMAT }}"@),
            replacements: 1,
            errors: 1,
            faulted: false,
        }
    }
}

/// A color placeholder with this name, format and modifier text: `source`,
/// a gradient index 1 to 16, or else a mistyped index (an error).
pub open spec fn resolve_color(
    grad: Seq<ColorModel>,
    source: ColorModel,
    name: Seq<char>,
    fmt: Seq<char>,
    mods: Option<Seq<char>>,
) -> RenderOut {
    let m = match mods {
        Some(t) => mods_of(split_on(t, '|')),
        None => no_mods(),
    };
    if name == "source"@ {
        color_out(source, fmt, m)
    } else if all_digits(name) {
        let n = digits_value(name);
        if 1 <= n <= 16 {
            if n <= grad.len() {
                color_out(grad[n - 1], fmt, m)
            } else {
                out_fault()
            }
        } else {
            out_error("{{ INVALID_INDEX }}"@)
        }
    } else {
        out_error("{{ INVALID_INDEX }}"@)
    }
}

/// What the color placeholder that starts at `rel` (with `{{col.`) renders
/// to, and where rendering resumes.
pub open spec fn col_step(grad: Seq<ColorModel>, source: ColorModel, s: Seq<char>, rel: int) -> (
    RenderOut,
    int,
) {
    let name_start = rel + 6;
    let j = scan_to(s, name_start, '.', '}');
    if j >= s.len() || s[j] != '.' {
        (out_text(s.subrange(rel, rel + 6)), rel + 6)
    } else {
        let name = s.subrange(name_start, j);
        let fmt_start = j + 1;
        let k = scan_to(s, fmt_start, '|', '}');
        let fmt_raw = s.subrange(fmt_start, k);
        if k < s.len() && s[k] == '|' {
            let m_start = k + 1;
            match find_pair(s, m_start, '}', '}') {
                Some(end) => if m_start == end {
                    (out_text(s.subrange(rel, end + 2)), end + 2)
                } else {
                    (
                        resolve_color(
                            grad,
                            source,
                            name,
                            trim_end(fmt_raw),
                            Some(s.subrange(m_start, end)),
                        ),
                        end + 2,
                    )
                },
                None => (out_text(s.subrange(rel, s.len() as int)), s.len() as int),
            }
        } else if k + 1 < s.len() && s[k] == '}' && s[k + 1] == '}' {
            (resolve_color(grad, source, name, fmt_raw, None), k + 2)
        } else {
            (out_text(s.subrange(rel, k)), k)
        }
    }
}

/// What `{{var.<inner>}}` renders to: `<name>.rgb` gives the channels of the
/// variable `<name>` read as a hex color; otherwise the value of the variable
/// `<inner>`.
pub open spec fn var_out(vars: Map<Seq<char>, Seq<char>>, raw_inner: Seq<char>) -> RenderOut {
    let inner = trim(raw_inner);
    let stem = trim(inner.take(inner.len() - 4));
    if inner.len() >= 4 && inner.skip(inner.len() - 4) == ".rgb"@ && stem.len() > 0
        && vars.contains_key(stem) {
        let bytes = encode_utf8(vars[stem]);
        if hex_split_breaks_char(bytes) {
            out_fault()
        } else {
            match parse_hex(bytes) {
                Ok(c) => out_replaced(
                    text_tokens(
                        dec(c.0 as nat) + ", "@ + dec(c.1 as nat) + ", "@ + dec(c.2 as nat),
                    ),
                ),
                Err(_) => out_error("{{ INVALID_VAR }}"@),
            }
        }
    } else if inner.len() > 0 && vars.contains_key(inner) {
        out_replaced(text_tokens(vars[inner]))
    } else {
        out_error("{{ INVALID_VAR }}"@)
    }
}

/// A pair found by `find_pair` lies at or after `from`, inside `s`.
pub proof fn lemma_find_pair_bounds(s: Seq<char>, from: int, a: char, b: char)
    ensures
        find_pair(s, from, a, b) matches Some(k) ==> from <= k && k + 2 <= s.len() && s[k] == a
            && s[k + 1] == b,
    decreases s.len() - from,
{
    if !(from < 0 || from + 2 > s.len()) && !(s[from] == a && s[from + 1] == b) {
        lemma_find_pair_bounds(s, from + 1, a, b);
    }
}

/// `scan_to` stops at or after `from`, at one of the two characters or at
/// the end.
pub proof fn lemma_scan_to_bounds(s: Seq<char>, from: int, a: char, b: char)
    requires
        0 <= from,
    ensures
        from <= scan_to(s, from, a, b) <= s.len() || (from > s.len() && scan_to(s, from, a, b)
            == s.len()),
        scan_to(s, from, a, b) < s.len() ==> (s[scan_to(s, from, a, b)] == a || s[scan_to(
            s,
            from,
            a,
            b,
        )] == b),
    decreases s.len() - from,
{
    if from < s.len() && !(s[from] == a || s[from] == b) {
        lemma_scan_to_bounds(s, from + 1, a, b);
    }
}

/// A color placeholder step moves past its start, and not past the end.
pub proof fn lemma_col_step_advances(grad: Seq<ColorModel>, source: ColorModel, s: Seq<char>, rel: int)
    requires
        tag_at(s, rel, "col."@),
    ensures
        rel < col_step(grad, source, s, rel).1 <= s.len(),
{
    lemma_scan_to_bounds(s, rel + 6, '.', '}');
    let j = scan_to(s, rel + 6, '.', '}');
    if j < s.len() && s[j] == '.' {
        lemma_scan_to_bounds(s, j + 1, '|', '}');
        lemma_find_pair_bounds(s, scan_to(s, j + 1, '|', '}') + 1, '}', '}');
    }
}

/// What `s[i..]` renders to.
pub open spec fn render_from(
    grad: Seq<ColorModel>,
    source: ColorModel,
    vars: Map<Seq<char>, Seq<char>>,
    s: Seq<char>,
    i: int,
) -> RenderOut
    decreases s.len() - i,
{
    if i < 0 || i >= s.len() {
        out_text(Seq::empty())
    } else {
        match find_pair(s, i, '{', '{') {
            None => out_text(s.subrange(i, s.len() as int)),
            Some(rel) => {
                proof {
                    lemma_find_pair_bounds(s, i, '{', '{');
                }
                let before = out_text(s.subrange(i, rel));
                if tag_at(s, rel, "col."@) {
                    proof {
                        lemma_col_step_advances(grad, source, s, rel);
                    }
                    let (step, next) = col_step(grad, source, s, rel);
                    then(then(before, step), render_from(grad, source, vars, s, next))
                } else if tag_at(s, rel, "var."@) {
                    match find_pair(s, rel + 6, '}', '}') {
                        Some(end) => {
                            proof {
                                lemma_find_pair_bounds(s, rel + 6, '}', '}');
                            }
                            then(
                                then(before, var_out(vars, s.subrange(rel + 6, end))),
                                render_from(grad, source, vars, s, end + 2),
                            )
                        },
                        None => then(before, out_text(s.subrange(rel, s.len() as int))),
                    }
                } else {
                    then(then(before, out_text("{{"@)), render_from(grad, source, vars, s, rel + 2))
                }
            },
        }
    }
}

/// A stretch of rendered output: text, or the alpha value of an `rgba`
/// placeholder (the text after `alpha:`, trimmed; `None` for the default),
/// which the caller renders as a number.
#[derive(Debug, Clone, PartialEq, Eq)]
pub enum Piece {
    Text(String),
    Alpha(Option<String>),
}

/// An optional string by its characters.
pub open spec fn opt_view(a: Option<String>) -> Option<Seq<char>> {
    match a {
        Some(t) => Some(t@),
        None => None,
    }
}

/// The output units of a piece.
pub open spec fn piece_tokens(p: Piece) -> Seq<Token> {
    match p {
        Piece::Text(t) => text_tokens(t@),
        Piece::Alpha(a) => seq![Token::Alpha(opt_view(a))],
    }
}

/// The output that a sequence of pieces stands for.
pub open spec fn pieces_tokens(ps: Seq<Piece>) -> Seq<Token>
    decreases ps.len(),
{
    if ps.len() == 0 {
        Seq::empty()
    } else {
        pieces_tokens(ps.drop_last()) + piece_tokens(ps.last())
    }
}

/// The output of two texts one after the other.
pub proof fn lemma_text_tokens_add(a: Seq<char>, b: Seq<char>)
    ensures
        text_tokens(a + b) =~= text_tokens(a) + text_tokens(b),
    decreases b.len(),
{
    if b.len() == 0 {
        assert(a + b =~= a);
        assert(text_tokens(b) =~= Seq::<Token>::empty());
        assert(text_tokens(a) + text_tokens(b) =~= text_tokens(a));
    } else {
        let b0 = b.drop_last();
        let c = b.last();
        lemma_text_tokens_add(a, b0);
        let ab = a + b;
        assert(ab.drop_last() =~= a + b0);
        assert(ab.last() == c);
        let x = text_tokens(ab);
        assert(x === text_tokens(ab.drop_last()).push(Token::Char(ab.last() as u32)));
        let y = text_tokens(b);
        assert(y === text_tokens(b.drop_last()).push(Token::Char(b.last() as u32)));
        assert(x =~= text_tokens(a) + y);
    }
}

/// No text, no output.
pub proof fn lemma_text_tokens_empty()
    ensures
        text_tokens(Seq::empty()) == Seq::<Token>::empty(),
{
    assert(text_tokens(Seq::<char>::empty()) =~= Seq::<Token>::empty());
}

/// Output under construction: finished pieces and pending text.
struct Emitter {
    pieces: Vec<Piece>,
    buf: Vec<char>,
}

impl Emitter {
    spec fn tokens(&self) -> Seq<Token> {
        pieces_tokens(self.pieces@) + text_tokens(self.buf@)
    }

    fn new() -> (e: Emitter)
        ensures
            e.pieces@ == Seq::<Piece>::empty(),
            e.buf@ == Seq::<char>::empty(),
            e.tokens() == Seq::<Token>::empty(),
    {
        let e = Emitter { pieces: Vec::new(), buf: Vec::new() };
        proof {
            lemma_text_tokens_empty();
        }
        assert(e.tokens() =~= Seq::<Token>::empty());
        e
    }

    fn push_str(&mut self, s: &str)
        ensures
            final(self).tokens() == old(self).tokens() + text_tokens(s@),
    {
        let ghost b0 = self.buf@;
        push_str(&mut self.buf, s);
        proof {
            lemma_text_tokens_add(b0, s@);
        }
        assert(self.tokens() =~= old(self).tokens() + text_tokens(s@));
    }

    fn push_range(&mut self, v: &Vec<char>, lo: usize, hi: usize)
        requires
            lo <= hi <= v@.len(),
        ensures
            final(self).tokens() == old(self).tokens() + text_tokens(
                v@.subrange(lo as int, hi as int),
            ),
    {
        let ghost b0 = self.buf@;
        push_range(&mut self.buf, v, lo, hi);
        proof {
            lemma_text_tokens_add(b0, v@.subrange(lo as int, hi as int));
        }
        assert(self.tokens() =~= old(self).tokens() + text_tokens(
            v@.subrange(lo as int, hi as int),
        ));
    }

    fn push_dec(&mut self, n: u8)
        ensures
            final(self).tokens() == old(self).tokens() + text_tokens(dec(n as nat)),
    {
        let ghost b0 = self.buf@;
        push_dec(&mut self.buf, n as u64);
        proof {
            lemma_text_tokens_add(b0, dec(n as nat));
        }
        assert(self.tokens() =~= old(self).tokens() + text_tokens(dec(n as nat)));
    }

    fn push_dec_signed(&mut self, n: i32)
        ensures
            final(self).tokens() == old(self).tokens() + text_tokens(dec_signed(n as int)),
    {
        let ghost b0 = self.buf@;
        push_dec_signed(&mut self.buf, n as i64);
        proof {
            lemma_text_tokens_add(b0, dec_signed(n as int));
        }
        assert(self.tokens() =~= old(self).tokens() + text_tokens(dec_signed(n as int)));
    }

    fn push_hex2(&mut self, n: u8)
        ensures
            final(self).tokens() == old(self).tokens() + text_tokens(hex2(n, true)),
    {
        let ghost b0 = self.buf@;
        push_hex2(&mut self.buf, n, true);
        proof {
            lemma_text_tokens_add(b0, hex2(n, true));
        }
        assert(self.tokens() =~= old(self).tokens() + text_tokens(hex2(n, true)));
    }

    fn flush(&mut self)
        ensures
            final(self).tokens() == old(self).tokens(),
            final(self).buf@.len() == 0,
    {
        if self.buf.len() > 0 {
            let t = string_from_chars(self.buf.as_slice());
            let ghost p0 = self.pieces@;
            self.pieces.push(Piece::Text(t));
            assert(self.pieces@.drop_last() =~= p0);
            self.buf = Vec::new();
            proof {
                lemma_text_tokens_empty();
            }
            assert(self.tokens() =~= old(self).tokens());
        }
    }

    fn push_chars(&mut self, v: &Vec<char>)
        ensures
            final(self).tokens() == old(self).tokens() + text_tokens(v@),
    {
        self.push_range(v, 0, v.len());
        assert(v@.subrange(0, v@.len() as int) =~= v@);
    }

    fn push_alpha(&mut self, a: Option<String>)
        ensures
            final(self).tokens() == old(self).tokens() + seq![Token::Alpha(opt_view(a))],
    {
        self.flush();
        let ghost p0 = self.pieces@;
        let ghost av = opt_view(a);
        self.pieces.push(Piece::Alpha(a));
        assert(self.pieces@.drop_last() =~= p0);
        proof {
            lemma_text_tokens_empty();
        }
        assert(self.tokens() =~= old(self).tokens() + seq![Token::Alpha(av)]);
    }

    fn finish(self, out: &mut Vec<Piece>)
        ensures
            pieces_tokens(final(out)@) == pieces_tokens(old(out)@) + self.tokens(),
    {
        let mut e = self;
        e.flush();
        let ghost o0 = out@;
        let ghost p0 = e.pieces@;
        out.append(&mut e.pieces);
        proof {
            lemma_pieces_tokens_add(o0, p0);
            lemma_text_tokens_empty();
        }
        assert(pieces_tokens(out@) =~= pieces_tokens(o0) + self.tokens());
    }
}

/// The output of two runs of pieces one after the other.
pub proof fn lemma_pieces_tokens_add(a: Seq<Piece>, b: Seq<Piece>)
    ensures
        pieces_tokens(a + b) == pieces_tokens(a) + pieces_tokens(b),
    decreases b.len(),
{
    if b.len() == 0 {
        assert(a + b =~= a);
        assert(pieces_tokens(b) =~= Seq::<Token>::empty());
        assert(pieces_tokens(a) + pieces_tokens(b) =~= pieces_tokens(a));
    } else {
        lemma_pieces_tokens_add(a, b.drop_last());
        assert((a + b).drop_last() =~= a + b.drop_last());
        assert((a + b).last() == b.last());
        assert(pieces_tokens(a + b) =~= pieces_tokens(a) + pieces_tokens(b));
    }
}

/// Appends `rgb_text(c, strip)`.
fn push_rgb_text(out: &mut Vec<char>, c: Rgb, strip: bool)
    ensures
        final(out)@ == old(out)@ + rgb_text(c, strip),
{
    if !strip {
        push_str(out, "rgb(");
    }
    push_dec(out, c.0 as u64);
    push_str(out, ", ");
    push_dec(out, c.1 as u64);
    push_str(out, ", ");
    push_dec(out, c.2 as u64);
    if !strip {
        push_str(out, ")");
    }
    assert(final(out)@ =~= old(out)@ + rgb_text(c, strip));
}

/// Appends `hex_text(c, strip)`.
fn push_hex_text(out: &mut Vec<char>, c: Rgb, strip: bool)
    ensures
        final(out)@ == old(out)@ + hex_text(c, strip),
{
    if !strip {
        push_str(out, "#");
    }
    push_hex2(out, c.0, true);
    push_hex2(out, c.1, true);
    push_hex2(out, c.2, true);
    assert(final(out)@ =~= old(out)@ + hex_text(c, strip));
}

/// Appends `hsl_text(h, strip)`.
fn push_hsl_text(out: &mut Vec<char>, h: Hsl, strip: bool)
    ensures
        final(out)@ == old(out)@ + hsl_text(h, strip),
{
    if !strip {
        push_str(out, "hsl(");
    }
    push_dec_signed(out, h.0 as i64);
    push_str(out, ", ");
    push_dec_signed(out, h.1 as i64);
    push_str(out, "%, ");
    push_dec_signed(out, h.2 as i64);
    push_str(out, "%");
    if !strip {
        push_str(out, ")");
    }
    assert(final(out)@ =~= old(out)@ + hsl_text(h, strip));
}

fn rgb_string(c: Rgb, strip: bool) -> (s: String)
    ensures
        s@ == rgb_text(c, strip),
{
    let mut v: Vec<char> = Vec::new();
    push_rgb_text(&mut v, c, strip);
    string_from_chars(v.as_slice())
}

fn hex_string(c: Rgb, strip: bool) -> (s: String)
    ensures
        s@ == hex_text(c, strip),
{
    let mut v: Vec<char> = Vec::new();
    push_hex_text(&mut v, c, strip);
    string_from_chars(v.as_slice())
}

fn hsl_string(h: Hsl, strip: bool) -> (s: String)
    ensures
        s@ == hsl_text(h, strip),
{
    let mut v: Vec<char> = Vec::new();
    push_hsl_text(&mut v, h, strip);
    string_from_chars(v.as_slice())
}

/// A palette color with its renderings computed once.
pub struct PreparedColor {
    pub raw: Rgb,
    css_hsl: Hsl,
    inverted_css_hsl: Hsl,
    hex: String,
    hex_stripped: String,
    rgb: String,
    rgb_stripped: String,
    hsl: String,
    hsl_stripped: String,
}

impl PreparedColor {
    /// The color: channels, `hsl()` triple, `hsl()` triple of the complement.
    pub closed spec fn model(&self) -> ColorModel {
        (self.raw, self.css_hsl, self.inverted_css_hsl)
    }

    /// The stored renderings are those of the color.
    pub closed spec fn wf(&self) -> bool {
        &&& self.hex@ == hex_text(self.raw, false)
        &&& self.hex_stripped@ == hex_text(self.raw, true)
        &&& self.rgb@ == rgb_text(self.raw, false)
        &&& self.rgb_stripped@ == rgb_text(self.raw, true)
        &&& self.hsl@ == hsl_text(self.css_hsl, false)
        &&& self.hsl_stripped@ == hsl_text(self.css_hsl, true)
    }

    /// Prepares `raw`, whose `hsl()` triple is `hsl.0` and that of whose
    /// complement is `hsl.1`.
    fn new(raw: Rgb, hsl: (Hsl, Hsl)) -> (c: PreparedColor)
        ensures
            c.model() == (raw, hsl.0, hsl.1),
            c.wf(),
    {
        PreparedColor {
            raw,
            css_hsl: hsl.0,
            inverted_css_hsl: hsl.1,
            hex: hex_string(raw, false),
            hex_stripped: hex_string(raw, true),
            rgb: rgb_string(raw, false),
            rgb_stripped: rgb_string(raw, true),
            hsl: hsl_string(hsl.0, false),
            hsl_stripped: hsl_string(hsl.0, true),
        }
    }
}

/// The sixteen gradient steps and the source color, prepared for rendering.
pub struct Palette {
    grad: Vec<PreparedColor>,
    source: PreparedColor,
}

impl Palette {
    #[verifier::type_invariant]
    spec fn inv(self) -> bool {
        &&& forall|i: int| 0 <= i < self.grad@.len() ==> (#[trigger] self.grad@[i]).wf()
        &&& self.source.wf()
    }

    /// The gradient colors, in order.
    pub closed spec fn grad_model(&self) -> Seq<ColorModel> {
        self.grad@.map_values(|c: PreparedColor| c.model())
    }

    /// The source color.
    pub closed spec fn source_model(&self) -> ColorModel {
        self.source.model()
    }
}

/// Prepares the gradient `colors` and the `source` color for rendering.
/// `hsl[i]` is the CSS `hsl()` triple of `colors[i]` and that of its
/// complement; `source_hsl` the same for `source`.
pub fn prepare_palette(colors: &[Rgb], source: Rgb, hsl: &[(Hsl, Hsl)], source_hsl: (Hsl, Hsl)) -> (p:
    Palette)
    requires
        hsl@.len() == colors@.len(),
    ensures
        p.grad_model().len() == colors@.len(),
        forall|i: int|
            0 <= i < colors@.len() ==> #[trigger] p.grad_model()[i] == (
                colors@[i],
                hsl@[i].0,
                hsl@[i].1,
            ),
        p.source_model() == (source, source_hsl.0, source_hsl.1),
{
    let mut grad: Vec<PreparedColor> = Vec::new();
    let mut k: usize = 0;
    while k < colors.len()
        invariant
            k <= colors@.len(),
            hsl@.len() == colors@.len(),
            grad@.len() == k,
            forall|i: int| 0 <= i < k ==> (#[trigger] grad@[i]).wf(),
            forall|i: int|
                0 <= i < k ==> (#[trigger] grad@[i]).model() == (colors@[i], hsl@[i].0, hsl@[i].1),
        decreases colors@.len() - k,
    {
        grad.push(PreparedColor::new(colors[k], hsl[k]));
        k += 1;
    }
    let p = Palette { grad, source: PreparedColor::new(source, source_hsl) };
    assert(p.grad_model().len() == colors@.len());
    p
}

/// A `[vars]` value, as the renderer reads it: a string, an integer, a float
/// (in its decimal rendering), a boolean, or anything else.
pub enum VarValue {
    Text(String),
    Integer(i64),
    Float(String),
    Boolean(bool),
    Unsupported,
}

/// The text a variable renders as; `None` for a value of another kind.
pub open spec fn value_text(v: VarValue) -> Option<Seq<char>> {
    match v {
        VarValue::Text(t) => Some(t@),
        VarValue::Integer(i) => Some(dec_signed(i as int)),
        VarValue::Float(t) => Some(t@),
        VarValue::Boolean(b) => Some(if b {
            "true"@
        } else {
            "false"@
        }),
        VarValue::Unsupported => None,
    }
}

/// A variable whose value is neither a string, a number nor a boolean.
#[derive(Debug, Clone, PartialEq, Eq)]
pub struct VarError {
    pub name: String,
}

/// `a` sorts strictly before `b`, character by character.
pub open spec fn text_lt(a: Seq<char>, b: Seq<char>) -> bool
    decreases a.len(),
{
    if a.len() == 0 {
        b.len() > 0
    } else if b.len() == 0 {
        false
    } else if a[0] != b[0] {
        a[0] < b[0]
    } else {
        text_lt(a.drop_first(), b.drop_first())
    }
}

/// No name occurs twice.
pub open spec fn distinct_names<V>(vars: Seq<(String, V)>) -> bool {
    forall|i: int, j: int|
        0 <= i < vars.len() && 0 <= j < vars.len() && i != j ==> #[trigger] vars[i].0@ != #[trigger] vars[j].0@
}

/// The map from each name to its value.
pub open spec fn pairs_map(vars: Seq<(String, String)>) -> Map<Seq<char>, Seq<char>>
    decreases vars.len(),
{
    if vars.len() == 0 {
        Map::empty()
    } else {
        pairs_map(vars.drop_last()).insert(vars.last().0@, vars.last().1@)
    }
}

/// The map from each name to the text of its value.
pub open spec fn resolved_map(vars: Seq<(String, VarValue)>) -> Map<Seq<char>, Seq<char>>
    decreases vars.len(),
{
    if vars.len() == 0 {
        Map::empty()
    } else {
        resolved_map(vars.drop_last()).insert(vars.last().0@, value_text(vars.last().1)->0)
    }
}

/// The variables of a configuration, resolved to text.
pub struct RenderCtx {
    vars: Vec<(String, String)>,
}

/// With distinct names, the map has exactly the names of the pairs, each
/// with its own value.
pub proof fn lemma_pairs_map(vars: Seq<(String, String)>)
    requires
        distinct_names(vars),
    ensures
        forall|k: Seq<char>|
            #[trigger] pairs_map(vars).contains_key(k) <==> exists|i: int|
                0 <= i < vars.len() && #[trigger] vars[i].0@ == k,
        forall|i: int|
            0 <= i < vars.len() ==> #[trigger] pairs_map(vars)[vars[i].0@] == vars[i].1@,
    decreases vars.len(),
{
    if vars.len() > 0 {
        let d = vars.drop_last();
        assert(distinct_names(d));
        lemma_pairs_map(d);
        assert forall|k: Seq<char>| #[trigger] pairs_map(vars).contains_key(k) <==> exists|i: int|
            0 <= i < vars.len() && #[trigger] vars[i].0@ == k by {
            if pairs_map(vars).contains_key(k) && k != vars.last().0@ {
                assert(pairs_map(d).contains_key(k));
                let i = choose|i: int| 0 <= i < d.len() && #[trigger] d[i].0@ == k;
                assert(d[i] == vars[i]);
                assert(vars[i].0@ == k);
            }
            if k == vars.last().0@ {
                assert(vars[vars.len() - 1].0@ == k);
            }
            if exists|i: int| 0 <= i < vars.len() && #[trigger] vars[i].0@ == k {
                let i = choose|i: int| 0 <= i < vars.len() && #[trigger] vars[i].0@ == k;
                if i < vars.len() - 1 {
                    assert(d[i] == vars[i]);
                    assert(d[i].0@ == k);
                    assert(pairs_map(d).contains_key(k));
                }
            }
        }
        assert forall|i: int| 0 <= i < vars.len() implies #[trigger] pairs_map(vars)[vars[i].0@]
            == vars[i].1@ by {
            assert(pairs_map(vars) == pairs_map(d).insert(vars.last().0@, vars.last().1@));
            if i < vars.len() - 1 {
                assert(d[i] == vars[i]);
                assert(vars[i].0@ != vars[vars.len() - 1].0@);
                assert(pairs_map(d)[d[i].0@] == d[i].1@);
            }
        }
    }
}

impl RenderCtx {
    #[verifier::type_invariant]
    spec fn inv(self) -> bool {
        distinct_names(self.vars@)
    }

    /// The variables, by name.
    pub closed spec fn vars_map(&self) -> Map<Seq<char>, Seq<char>> {
        pairs_map(self.vars@)
    }

    /// Resolves the variables of a configuration. Each value renders as its
    /// string, its decimal number or `true`/`false`; a value of another kind
    /// is refused, naming the first such variable in name order.
    pub fn new(vars: Vec<(String, VarValue)>) -> (res: Result<RenderCtx, VarError>)
        requires
            distinct_names(vars@),
        ensures
            match res {
                Ok(ctx) => (forall|i: int|
                    0 <= i < vars@.len() ==> #[trigger] value_text(vars@[i].1) is Some)
                    && ctx.vars_map() == resolved_map(vars@),
                Err(e) => (exists|i: int|
                    0 <= i < vars@.len() && value_text(vars@[i].1) is None && #[trigger] vars@[i].0@
                        == e.name@) && (forall|j: int|
                    0 <= j < vars@.len() && value_text(vars@[j].1) is None ==> !text_lt(
                        #[trigger] vars@[j].0@,
                        e.name@,
                    )),
            },
    {
        let len = vars.len();
        let mut bad: Option<usize> = None;
        let mut k: usize = 0;
        while k < len
            invariant
                len == vars@.len(),
                k <= len,
                bad is None ==> forall|j: int| 0 <= j < k ==> #[trigger] value_text(vars@[j].1) is Some,
                bad matches Some(b) ==> b < k && value_text(vars@[b as int].1) is None && forall|j: int|
                    0 <= j < k && value_text(vars@[j].1) is None ==> !text_lt(
                        #[trigger] vars@[j].0@,
                        vars@[b as int].0@,
                    ),
            decreases len - k,
        {
            if is_unsupported(&vars[k].1) {
                match bad {
                    None => {
                        bad = Some(k);
                        proof {
                            lemma_text_lt_irreflexive(vars@[k as int].0@);
                        }
                    },
                    Some(b) => {
                        if text_less(&vars[k].0, &vars[b].0) {
                            proof {
                                assert forall|j: int|
                                    0 <= j < k + 1 && value_text(vars@[j].1) is None implies !text_lt(
                                    #[trigger] vars@[j].0@,
                                    vars@[k as int].0@,
                                ) by {
                                    if j < k && text_lt(vars@[j].0@, vars@[k as int].0@) {
                                        lemma_text_lt_transitive(
                                            vars@[j].0@,
                                            vars@[k as int].0@,
                                            vars@[b as int].0@,
                                        );
                                    }
                                    if j == k {
                                        lemma_text_lt_irreflexive(vars@[k as int].0@);
                                    }
                                }
                            }
                            bad = Some(k);
                        }
                    },
                }
            }
            k += 1;
        }
        if let Some(b) = bad {
            let e = VarError { name: vars[b].0.clone() };
            assert(value_text(vars@[b as int].1) is None && vars@[b as int].0@ == e.name@);
            return Err(e);
        }
        let mut resolved: Vec<(String, String)> = Vec::new();
        let mut k: usize = 0;
        assert(vars@.take(0) =~= Seq::<(String, VarValue)>::empty());
        while k < len
            invariant
                len == vars@.len(),
                k <= len,
                distinct_names(vars@),
                forall|j: int| 0 <= j < len ==> #[trigger] value_text(vars@[j].1) is Some,
                resolved@.len() == k,
                forall|j: int| 0 <= j < k ==> #[trigger] resolved@[j].0@ == vars@[j].0@,
                pairs_map(resolved@) == resolved_map(vars@.take(k as int)),
            decreases len - k,
        {
            let name = vars[k].0.clone();
            let text = value_string(&vars[k].1);
            let ghost r0 = resolved@;
            resolved.push((name, text));
            assert(resolved@.drop_last() =~= r0);
            assert(vars@.take(k + 1).drop_last() =~= vars@.take(k as int));
            k += 1;
        }
        assert(vars@.take(len as int) =~= vars@);
        assert(distinct_names(resolved@)) by {
            assert forall|i: int, j: int|
                0 <= i < resolved@.len() && 0 <= j < resolved@.len() && i != j implies #[trigger] resolved@[i].0@
                != #[trigger] resolved@[j].0@ by {
                assert(resolved@[i].0@ == vars@[i].0@);
                assert(resolved@[j].0@ == vars@[j].0@);
            }
        }
        Ok(RenderCtx { vars: resolved })
    }
}

fn is_unsupported(v: &VarValue) -> (b: bool)
    ensures
        b == (value_text(*v) is None),
{
    match v {
        VarValue::Unsupported => true,
        _ => false,
    }
}

/// The text of a supported value.
fn value_string(v: &VarValue) -> (s: String)
    requires
        value_text(*v) is Some,
    ensures
        s@ == value_text(*v)->0,
{
    match v {
        VarValue::Text(t) => t.clone(),
        VarValue::Integer(i) => {
            let mut buf: Vec<char> = Vec::new();
            push_dec_signed(&mut buf, *i);
            assert(buf@ =~= dec_signed(*i as int));
            string_from_chars(buf.as_slice())
        },
        VarValue::Float(t) => t.clone(),
        VarValue::Boolean(b) => {
            if *b {
                "true".to_owned()
            } else {
                "false".to_owned()
            }
        },
        VarValue::Unsupported => String::new(),
    }
}

/// No text orders before itself.
pub proof fn lemma_text_lt_irreflexive(a: Seq<char>)
    ensures
        !text_lt(a, a),
    decreases a.len(),
{
    if a.len() > 0 {
        lemma_text_lt_irreflexive(a.drop_first());
    }
}

/// The text order is transitive.
pub proof fn lemma_text_lt_transitive(a: Seq<char>, b: Seq<char>, c: Seq<char>)
    requires
        text_lt(a, b),
        text_lt(b, c),
    ensures
        text_lt(a, c),
    decreases a.len(),
{
    if a.len() > 0 && b.len() > 0 && c.len() > 0 && a[0] == b[0] && b[0] == c[0] {
        lemma_text_lt_transitive(a.drop_first(), b.drop_first(), c.drop_first());
    }
}

/// Whether `a` sorts strictly before `b`.
fn text_less(a: &String, b: &String) -> (r: bool)
    ensures
        r == text_lt(a@, b@),
{
    let x = chars_of(a.as_str());
    let y = chars_of(b.as_str());
    let mut i: usize = 0;
    assert(x@.skip(0) =~= x@);
    assert(y@.skip(0) =~= y@);
    while i < x.len() && i < y.len() && x[i] == y[i]
        invariant
            i <= x@.len() && i <= y@.len(),
            text_lt(x@, y@) == text_lt(x@.skip(i as int), y@.skip(i as int)),
        decreases x@.len() - i,
    {
        assert(x@.skip(i as int).drop_first() =~= x@.skip(i + 1));
        assert(y@.skip(i as int).drop_first() =~= y@.skip(i + 1));
        i += 1;
    }
    if i == x.len() {
        i < y.len()
    } else if i == y.len() {
        false
    } else {
        x[i] < y[i]
    }
}

impl RenderCtx {
    /// The index of the variable named `v[lo..hi]`.
    fn lookup(&self, v: &Vec<char>, lo: usize, hi: usize) -> (r: Option<usize>)
        requires
            lo <= hi <= v@.len(),
        ensures
            match r {
                Some(i) => i < self.vars@.len() && self.vars_map().contains_key(
                    v@.subrange(lo as int, hi as int),
                ) && self.vars_map()[v@.subrange(lo as int, hi as int)] == self.vars@[i as int].1@,
                None => !self.vars_map().contains_key(v@.subrange(lo as int, hi as int)),
            },
    {
        proof {
            use_type_invariant(self);
            lemma_pairs_map(self.vars@);
        }
        let mut i: usize = 0;
        while i < self.vars.len()
            invariant
                i <= self.vars@.len(),
                lo <= hi <= v@.len(),
                forall|j: int| 0 <= j < i ==> #[trigger] self.vars@[j].0@ != v@.subrange(
                    lo as int,
                    hi as int,
                ),
            decreases self.vars@.len() - i,
        {
            let name = chars_of(self.vars[i].0.as_str());
            if range_eq(v, lo, hi, &name) {
                let ghost key = v@.subrange(lo as int, hi as int);
                proof {
                    use_type_invariant(self);
                    lemma_pairs_map(self.vars@);
                }
                assert(self.vars@[i as int].0@ == key);
                assert(pairs_map(self.vars@).contains_key(key));
                assert(pairs_map(self.vars@)[self.vars@[i as int].0@] == self.vars@[i as int].1@);
                return Some(i);
            }
            i += 1;
        }
        None
    }
}

/// `find_pair` on `v`.
fn find_pair_at(v: &Vec<char>, from: usize, a: char, b: char) -> (r: Option<usize>)
    requires
        from <= v@.len(),
    ensures
        match r {
            Some(k) => find_pair(v@, from as int, a, b) == Some(k as int),
            None => find_pair(v@, from as int, a, b) is None,
        },
{
    let mut k = from;
    while v.len() > 0 && k < v.len() - 1
        invariant
            from <= k <= v@.len(),
            find_pair(v@, k as int, a, b) == find_pair(v@, from as int, a, b),
        decreases v@.len() - k,
    {
        if v[k] == a && v[k + 1] == b {
            return Some(k);
        }
        k += 1;
    }
    None
}

/// `scan_to` on `v`.
fn scan_to_at(v: &Vec<char>, from: usize, a: char, b: char) -> (r: usize)
    requires
        from <= v@.len(),
    ensures
        r == scan_to(v@, from as int, a, b),
        from <= r <= v@.len(),
{
    let mut k = from;
    while k < v.len() && v[k] != a && v[k] != b
        invariant
            from <= k <= v@.len(),
            scan_to(v@, k as int, a, b) == scan_to(v@, from as int, a, b),
        decreases v@.len() - k,
    {
        k += 1;
    }
    k
}

/// Whether `v[i..]` starts with `{{` and then `word`.
fn tag_at_exec(v: &Vec<char>, i: usize, word: &str) -> (r: bool)
    requires
        i <= v@.len(),
    ensures
        r == tag_at(v@, i as int, word@),
{
    if v.len() < 6 || i > v.len() - 6 {
        return false;
    }
    v[i] == '{' && v[i + 1] == '{' && range_eq_str(v, i + 2, i + 6, word)
}

/// `min(digits_value(v[lo..hi]), 17)` where `v[lo..hi]` is all digits.
fn small_index(v: &Vec<char>, lo: usize, hi: usize) -> (r: Option<u8>)
    requires
        lo <= hi <= v@.len(),
    ensures
        r is Some <==> all_digits(v@.subrange(lo as int, hi as int)),
        r matches Some(n) ==> (if digits_value(v@.subrange(lo as int, hi as int)) <= 16 {
            n == digits_value(v@.subrange(lo as int, hi as int))
        } else {
            n == 17
        }),
{
    if lo == hi {
        return None;
    }
    let ghost name = v@.subrange(lo as int, hi as int);
    let mut acc: u8 = 0;
    let mut k = lo;
    assert(name.take(0) =~= Seq::<char>::empty());
    while k < hi
        invariant
            lo <= k <= hi <= v@.len(),
            name == v@.subrange(lo as int, hi as int),
            forall|t: int| 0 <= t < k - lo ==> '0' <= #[trigger] name[t] && name[t] <= '9',
            acc <= 17,
            digits_value(name.take(k - lo)) <= 16 ==> acc == digits_value(name.take(k - lo)),
            digits_value(name.take(k - lo)) > 16 ==> acc == 17,
        decreases hi - k,
    {
        let c = v[k];
        if c < '0' || c > '9' {
            assert(!('0' <= name[k - lo] && name[k - lo] <= '9'));
            return None;
        }
        let d = (c as u32 - 48) as u8;
        let ghost before = name.take(k - lo);
        assert(name.take(k - lo + 1).drop_last() =~= before);
        assert(name.take(k - lo + 1).last() == c);
        assert(digits_value(name.take(k - lo + 1)) == digits_value(before) * 10 + d);
        if acc * 10 + d > 17 {
            acc = 17;
        } else {
            acc = acc * 10 + d;
        }
        k += 1;
    }
    assert(name.take(hi - lo) =~= name);
    Some(acc)
}

/// The modifiers with the alpha text given by its bounds in `v`.
spec fn mods_at(v: Seq<char>, alpha: Option<(usize, usize)>, strip: bool, invert: bool) -> Mods {
    Mods {
        alpha: match alpha {
            Some(r) => Some(v.subrange(r.0 as int, r.1 as int)),
            None => None,
        },
        strip,
        invert,
    }
}

/// Applies the modifier `v[start..end]`.
fn apply_mod_at(
    v: &Vec<char>,
    start: usize,
    end: usize,
    alpha: Option<(usize, usize)>,
    strip: bool,
    invert: bool,
) -> (r: (Option<(usize, usize)>, bool, bool))
    requires
        start <= end <= v@.len(),
        alpha matches Some(x) ==> x.0 <= x.1 <= v@.len(),
    ensures
        mods_at(v@, r.0, r.1, r.2) == apply_mod(
            mods_at(v@, alpha, strip, invert),
            v@.subrange(start as int, end as int),
        ),
        r.0 matches Some(x) ==> x.0 <= x.1 <= v@.len(),
{
    let (a, b) = trim_range(v, start, end);
    let ghost t = v@.subrange(a as int, b as int);
    if b - a >= 6 && range_eq_str(v, a, a + 6, "alpha:") {
        let (a2, b2) = trim_range(v, a + 6, b);
        assert(t.take(6) =~= v@.subrange(a as int, a + 6));
        assert(t.skip(6) =~= v@.subrange(a + 6, b as int));
        return (Some((a2, b2)), strip, invert);
    }
    assert(b - a >= 6 ==> t.take(6) =~= v@.subrange(a as int, a + 6));
    if range_eq_str(v, a, b, "invert") {
        return (alpha, strip, true);
    }
    if range_eq_str(v, a, b, "strip") {
        return (alpha, true, invert);
    }
    (alpha, strip, invert)
}

/// The modifiers in `v[ms..me]`.
fn parse_mods(v: &Vec<char>, ms: usize, me: usize) -> (r: (Option<(usize, usize)>, bool, bool))
    requires
        ms <= me <= v@.len(),
    ensures
        mods_at(v@, r.0, r.1, r.2) == mods_of(split_on(v@.subrange(ms as int, me as int), '|')),
        r.0 matches Some(x) ==> x.0 <= x.1 <= v@.len(),
{
    let ghost w = v@.subrange(ms as int, me as int);
    let mut alpha: Option<(usize, usize)> = None;
    let mut strip = false;
    let mut invert = false;
    let mut start = ms;
    let ghost mut done: Seq<Seq<char>> = Seq::empty();
    assert(w.take(0) =~= Seq::<char>::empty());
    assert(split_on(w.take(0), '|') =~= done.push(Seq::empty()));
    loop
        invariant_except_break
            ms <= start <= me,
            split_on(w.take(start - ms), '|') == done.push(Seq::empty()),
        invariant
            ms <= me <= v@.len(),
            w == v@.subrange(ms as int, me as int),
            mods_at(v@, alpha, strip, invert) == mods_of(done),
            alpha matches Some(x) ==> x.0 <= x.1 <= v@.len(),
        ensures
            split_on(w, '|') == done,
        decreases me - start,
    {
        let end = match find_char(v, start, me, '|') {
            Some(k) => k,
            None => me,
        };
        proof {
            assert forall|j: int| start - ms <= j < end - ms implies w[j] != '|' by {
                assert(w[j] == v@[j + ms]);
            }
            lemma_split_extend(w, start - ms, end - ms, '|');
            assert(w.subrange(start - ms, end - ms) =~= v@.subrange(start as int, end as int));
            assert(split_on(w.take(end - ms), '|') =~= done.push(
                v@.subrange(start as int, end as int),
            ));
        }
        let ghost next = done.push(v@.subrange(start as int, end as int));
        assert(next.drop_last() =~= done);
        let r = apply_mod_at(v, start, end, alpha, strip, invert);
        alpha = r.0;
        strip = r.1;
        invert = r.2;
        proof {
            done = next;
        }
        if end == me {
            assert(w.take(me - ms) =~= w);
            break;
        }
        proof {
            assert(w.take(end - ms + 1).drop_last() =~= w.take(end - ms));
            assert(w[end - ms] == v@[end as int]);
            assert(split_on(w.take(end - ms + 1), '|') =~= done.push(Seq::empty()));
        }
        start = end + 1;
    }
    (alpha, strip, invert)
}

/// Emits the color placeholder output `color_out`.
#[verifier::spinoff_prover]
fn color_out_at(
    c: &PreparedColor,
    v: &Vec<char>,
    fs: usize,
    fe: usize,
    alpha: Option<(usize, usize)>,
    strip: bool,
    invert: bool,
    e: &mut Emitter,
) -> (r: (usize, usize))
    requires
        c.wf(),
        fs <= fe <= v@.len(),
        alpha matches Some(x) ==> x.0 <= x.1 <= v@.len(),
    ensures
        ({
            let o = color_out(c.model(), v@.subrange(fs as int, fe as int), mods_at(v@, alpha, strip, invert));
            &&& r.0 == o.replacements
            &&& r.1 == o.errors
            &&& !o.faulted
            &&& final(e).tokens() == old(e).tokens() + o.tokens
        }),
{
    let rgb = if invert {
        invert_color(c.raw.0, c.raw.1, c.raw.2)
    } else {
        c.raw
    };
    if range_eq_str(v, fs, fe, "hex") {
        if invert {
            let mut t: Vec<char> = Vec::new();
            push_hex_text(&mut t, rgb, strip);
            e.push_chars(&t);
        } else if strip {
            e.push_str(c.hex_stripped.as_str());
        } else {
            e.push_str(c.hex.as_str());
        }
        (1, 0)
    } else if range_eq_str(v, fs, fe, "rgb") {
        if invert {
            let mut t: Vec<char> = Vec::new();
            push_rgb_text(&mut t, rgb, strip);
            e.push_chars(&t);
        } else if strip {
            e.push_str(c.rgb_stripped.as_str());
        } else {
            e.push_str(c.rgb.as_str());
        }
        (1, 0)
    } else if range_eq_str(v, fs, fe, "rgba") {
        let mut t: Vec<char> = Vec::new();
        if !strip {
            push_str(&mut t, "rgba(");
        }
        let ghost t0 = t@;
        push_dec(&mut t, rgb.0 as u64);
        push_str(&mut t, ",");
        push_dec(&mut t, rgb.1 as u64);
        push_str(&mut t, ",");
        push_dec(&mut t, rgb.2 as u64);
        push_str(&mut t, ",");
        let ghost body = dec(rgb.0 as nat) + ","@ + dec(rgb.1 as nat) + ","@ + dec(rgb.2 as nat)
            + ","@;
        assert(t@ =~= t0 + body);
        e.push_chars(&t);
        let a = match alpha {
            Some((a0, a1)) => Some(range_string(v, a0, a1)),
            None => None,
        };
        e.push_alpha(a);
        if !strip {
            e.push_str(")");
        }
        proof {
            if !strip {
                assert(t0 == "rgba("@) by {
                    assert(t0 =~= Seq::<char>::empty() + "rgba("@);
                }
            } else {
                assert(t0 =~= Seq::<char>::empty());
            }
        }
        assert(final(e).tokens() =~= old(e).tokens() + color_out(
            c.model(),
            v@.subrange(fs as int, fe as int),
            mods_at(v@, alpha, strip, invert),
        ).tokens);
        (1, 0)
    } else if range_eq_str(v, fs, fe, "hsl") {
        if invert {
            let mut t: Vec<char> = Vec::new();
            push_hsl_text(&mut t, c.inverted_css_hsl, strip);
            e.push_chars(&t);
        } else if strip {
            e.push_str(c.hsl_stripped.as_str());
        } else {
            e.push_str(c.hsl.as_str());
        }
        (1, 0)
    } else {
        e.push_str("{{ INVALID_FORMAT }}");
        (1, 1)
    }
}

/// The modifier text of a placeholder, by its bounds in `v`.
spec fn mods_text(v: Seq<char>, mods: Option<(usize, usize)>) -> Option<Seq<char>> {
    match mods {
        Some(r) => Some(v.subrange(r.0 as int, r.1 as int)),
        None => None,
    }
}

/// Emits `resolve_color` for the placeholder with name `v[ns..ne]`, format
/// `v[fs..fe]` and modifier text `mods`.
fn resolve_color_at(
    pal: &Palette,
    v: &Vec<char>,
    ns: usize,
    ne: usize,
    fs: usize,
    fe: usize,
    mods: Option<(usize, usize)>,
    e: &mut Emitter,
) -> (r: Option<(usize, usize)>)
    requires
        ns <= ne <= v@.len(),
        fs <= fe <= v@.len(),
        mods matches Some(x) ==> x.0 <= x.1 <= v@.len(),
    ensures
        ({
            let o = resolve_color(
                pal.grad_model(),
                pal.source_model(),
                v@.subrange(ns as int, ne as int),
                v@.subrange(fs as int, fe as int),
                mods_text(v@, mods),
            );
            &&& r is None <==> o.faulted
            &&& r matches Some(x) ==> x.0 == o.replacements && x.1 == o.errors && final(e).tokens()
                == old(e).tokens() + o.tokens
        }),
{
    proof {
        use_type_invariant(pal);
    }
    let (alpha, strip, invert) = match mods {
        Some((ms, me)) => parse_mods(v, ms, me),
        None => (None, false, false),
    };
    assert(mods_at(v@, alpha, strip, invert) == match mods_text(v@, mods) {
        Some(t) => mods_of(split_on(t, '|')),
        None => no_mods(),
    });
    if range_eq_str(v, ns, ne, "source") {
        return Some(color_out_at(&pal.source, v, fs, fe, alpha, strip, invert, e));
    }
    match small_index(v, ns, ne) {
        Some(n) => {
            if 1 <= n && n <= 16 {
                if (n as usize) <= pal.grad.len() {
                    let c = &pal.grad[(n - 1) as usize];
                    assert(pal.grad_model()[n - 1] == c.model());
                    Some(color_out_at(c, v, fs, fe, alpha, strip, invert, e))
                } else {
                    None
                }
            } else {
                e.push_str("{{ INVALID_INDEX }}");
                Some((0, 1))
            }
        },
        None => {
            e.push_str("{{ INVALID_INDEX }}");
            Some((0, 1))
        },
    }
}

/// Emits the color placeholder at `rel`; answers where rendering resumes.
fn render_col(pal: &Palette, v: &Vec<char>, rel: usize, e: &mut Emitter) -> (r: Option<
    (usize, usize, usize),
>)
    requires
        tag_at(v@, rel as int, "col."@),
    ensures
        ({
            let (o, next) = col_step(pal.grad_model(), pal.source_model(), v@, rel as int);
            &&& r is None <==> o.faulted
            &&& r matches Some(x) ==> x.0 == next && x.1 == o.replacements && x.2 == o.errors
                && final(e).tokens() == old(e).tokens() + o.tokens
        }),
{
    let len = v.len();
    let name_start = rel + 6;
    let j = scan_to_at(v, name_start, '.', '}');
    if j >= len || v[j] != '.' {
        e.push_range(v, rel, rel + 6);
        return Some((rel + 6, 0, 0));
    }
    let fmt_start = j + 1;
    let k = scan_to_at(v, fmt_start, '|', '}');
    if k < len && v[k] == '|' {
        let m_start = k + 1;
        match find_pair_at(v, m_start, '}', '}') {
            Some(end) => {
                proof {
                    lemma_find_pair_bounds(v@, m_start as int, '}', '}');
                }
                if m_start == end {
                    e.push_range(v, rel, end + 2);
                    return Some((end + 2, 0, 0));
                }
                let fe = trim_end_range(v, fmt_start, k);
                match resolve_color_at(
                    pal,
                    v,
                    name_start,
                    j,
                    fmt_start,
                    fe,
                    Some((m_start, end)),
                    e,
                ) {
                    Some((a, b)) => Some((end + 2, a, b)),
                    None => None,
                }
            },
            None => {
                e.push_range(v, rel, len);
                Some((len, 0, 0))
            },
        }
    } else if len > 0 && k < len - 1 && v[k] == '}' && v[k + 1] == '}' {
        match resolve_color_at(pal, v, name_start, j, fmt_start, k, None, e) {
            Some((a, b)) => Some((k + 2, a, b)),
            None => None,
        }
    } else {
        e.push_range(v, rel, k);
        Some((k, 0, 0))
    }
}

/// Emits `{{var.<v[ns..end]>}}`.
fn render_var(ctx: &RenderCtx, v: &Vec<char>, ns: usize, end: usize, e: &mut Emitter) -> (r:
    Option<(usize, usize)>)
    requires
        ns <= end <= v@.len(),
    ensures
        ({
            let o = var_out(ctx.vars_map(), v@.subrange(ns as int, end as int));
            &&& r is None <==> o.faulted
            &&& r matches Some(x) ==> x.0 == o.replacements && x.1 == o.errors && final(e).tokens()
                == old(e).tokens() + o.tokens
        }),
{
    let (a, b) = trim_range(v, ns, end);
    let ghost inner = v@.subrange(a as int, b as int);
    proof {
        if b - a >= 4 {
            assert(inner.skip(inner.len() - 4) =~= v@.subrange(b - 4, b as int));
            assert(inner.take(inner.len() - 4) =~= v@.subrange(a as int, b - 4));
        }
    }
    if b - a >= 4 && range_eq_str(v, b - 4, b, ".rgb") {
        let (s0, s1) = trim_range(v, a, b - 4);
        if s0 < s1 {
            if let Some(i) = ctx.lookup(v, s0, s1) {
                match scan_hex_bytes(ctx.vars[i].1.as_str().as_bytes()) {
                    None => {
                        return None;
                    },
                    Some(Ok(c)) => {
                        let mut t: Vec<char> = Vec::new();
                        push_dec(&mut t, c.0 as u64);
                        push_str(&mut t, ", ");
                        push_dec(&mut t, c.1 as u64);
                        push_str(&mut t, ", ");
                        push_dec(&mut t, c.2 as u64);
                        assert(t@ =~= dec(c.0 as nat) + ", "@ + dec(c.1 as nat) + ", "@ + dec(
                            c.2 as nat,
                        ));
                        e.push_chars(&t);
                        return Some((1, 0));
                    },
                    Some(Err(_)) => {
                        e.push_str("{{ INVALID_VAR }}");
                        return Some((0, 1));
                    },
                }
            }
        }
    }
    if a < b {
        if let Some(i) = ctx.lookup(v, a, b) {
            e.push_str(ctx.vars[i].1.as_str());
            return Some((1, 0));
        }
    }
    e.push_str("{{ INVALID_VAR }}");
    Some((0, 1))
}

/// Sequencing outputs is associative.
pub proof fn lemma_then_assoc(a: RenderOut, b: RenderOut, c: RenderOut)
    ensures
        then(a, then(b, c)) == then(then(a, b), c),
{
    if !a.faulted && !b.faulted {
        assert(a.tokens + (b.tokens + c.tokens) =~= (a.tokens + b.tokens) + c.tokens);
    }
}

/// A color placeholder counts at most two, and spans more than two characters.
proof fn lemma_col_step_counts(grad: Seq<ColorModel>, source: ColorModel, s: Seq<char>, rel: int)
    requires
        tag_at(s, rel, "col."@),
    ensures
        col_step(grad, source, s, rel).0.replacements + col_step(grad, source, s, rel).0.errors
            <= col_step(grad, source, s, rel).1 - rel,
{
    lemma_col_step_advances(grad, source, s, rel);
    lemma_scan_to_bounds(s, rel + 6, '.', '}');
    let j = scan_to(s, rel + 6, '.', '}');
    if j < s.len() && s[j] == '.' {
        lemma_scan_to_bounds(s, j + 1, '|', '}');
        lemma_find_pair_bounds(s, scan_to(s, j + 1, '|', '}') + 1, '}', '}');
    }
}

/// Rendering counts at most one replacement or error per character.
pub proof fn lemma_render_counts(
    grad: Seq<ColorModel>,
    source: ColorModel,
    vars: Map<Seq<char>, Seq<char>>,
    s: Seq<char>,
    i: int,
)
    requires
        0 <= i <= s.len(),
    ensures
        render_from(grad, source, vars, s, i).replacements + render_from(
            grad,
            source,
            vars,
            s,
            i,
        ).errors <= s.len() - i,
    decreases s.len() - i,
{
    if i < s.len() {
        match find_pair(s, i, '{', '{') {
            None => {},
            Some(rel) => {
                lemma_find_pair_bounds(s, i, '{', '{');
                if tag_at(s, rel, "col."@) {
                    lemma_col_step_advances(grad, source, s, rel);
                    lemma_col_step_counts(grad, source, s, rel);
                    let next = col_step(grad, source, s, rel).1;
                    lemma_render_counts(grad, source, vars, s, next);
                } else if tag_at(s, rel, "var."@) {
                    match find_pair(s, rel + 6, '}', '}') {
                        Some(end) => {
                            lemma_find_pair_bounds(s, rel + 6, '}', '}');
                            lemma_render_counts(grad, source, vars, s, end + 2);
                        },
                        None => {},
                    }
                } else {
                    lemma_render_counts(grad, source, vars, s, rel + 2);
                }
            },
        }
    }
}

/// What `content` renders to with this palette and these variables.
pub open spec fn render(pal: &Palette, ctx: &RenderCtx, content: Seq<char>) -> RenderOut {
    render_from(pal.grad_model(), pal.source_model(), ctx.vars_map(), content, 0)
}

/// Rendering reads past the gradient or cuts a character in two.
#[derive(Debug, Clone, Copy, PartialEq, Eq)]
pub struct RenderFault;

/// Renders `content`, appending the output to `out`; answers the number of
/// placeholders replaced and the number of errors. `Err` where `render_into`
/// is not defined: an index past the gradient, or a `.rgb` variable whose
/// reading would cut a character in two.
pub fn try_render_into(pal: &Palette, ctx: &RenderCtx, content: &str, out: &mut Vec<Piece>) -> (r:
    Result<(usize, usize), RenderFault>)
    ensures
        r is Err <==> render(pal, ctx, content@).faulted,
        r matches Ok(x) ==> x.0 == render(pal, ctx, content@).replacements && x.1 == render(
            pal,
            ctx,
            content@,
        ).errors && pieces_tokens(final(out)@) == pieces_tokens(old(out)@) + render(
            pal,
            ctx,
            content@,
        ).tokens,
{
    let v = chars_of(content);
    let len = v.len();
    let ghost g = pal.grad_model();
    let ghost src = pal.source_model();
    let ghost m = ctx.vars_map();
    let ghost total = render_from(g, src, m, v@, 0);
    let mut e = Emitter::new();
    let mut repl: usize = 0;
    let mut errs: usize = 0;
    let mut i: usize = 0;
    proof {
        lemma_render_counts(g, src, m, v@, 0);
        assert(then(
            RenderOut { tokens: e.tokens(), replacements: 0, errors: 0, faulted: false },
            total,
        ) =~= total);
    }
    while i < len
        invariant
            len == v@.len(),
            v@ == content@,
            i <= len,
            g == pal.grad_model(),
            src == pal.source_model(),
            m == ctx.vars_map(),
            total == render_from(g, src, m, v@, 0),
            total.replacements + total.errors <= len,
            then(
                RenderOut { tokens: e.tokens(), replacements: repl as nat, errors: errs as nat, faulted: false },
                render_from(g, src, m, v@, i as int),
            ) == total,
        decreases len - i,
    {
        let ghost done = RenderOut {
            tokens: e.tokens(),
            replacements: repl as nat,
            errors: errs as nat,
            faulted: false,
        };
        match find_pair_at(&v, i, '{', '{') {
            None => {
                e.push_range(&v, i, len);
                proof {
                    assert(render_from(g, src, m, v@, len as int) == out_text(Seq::empty()));
                    lemma_text_tokens_empty();
                    assert(then(done, render_from(g, src, m, v@, i as int)).tokens =~= e.tokens());
                    assert(then(
                        RenderOut { tokens: e.tokens(), replacements: repl as nat, errors: errs as nat, faulted: false },
                        render_from(g, src, m, v@, len as int),
                    ) =~= then(done, render_from(g, src, m, v@, i as int)));
                }
                i = len;
            },
            Some(rel) => {
                proof {
                    lemma_find_pair_bounds(v@, i as int, '{', '{');
                }
                let ghost before = out_text(v@.subrange(i as int, rel as int));
                e.push_range(&v, i, rel);
                if tag_at_exec(&v, rel, "col.") {
                    proof {
                        lemma_col_step_advances(g, src, v@, rel as int);
                    }
                    let ghost step = col_step(g, src, v@, rel as int).0;
                    let ghost next = col_step(g, src, v@, rel as int).1;
                    let ghost rest = render_from(g, src, m, v@, next);
                    proof {
                        lemma_then_assoc(done, then(before, step), rest);
                        lemma_then_assoc(done, before, step);
                        assert(render_from(g, src, m, v@, i as int) == then(then(before, step), rest));
                    }
                    match render_col(pal, &v, rel, &mut e) {
                        None => {
                            return Err(RenderFault);
                        },
                        Some((n, a, b)) => {
                            proof {
                                lemma_render_counts(g, src, m, v@, next);
                            }
                            repl = repl + a;
                            errs = errs + b;
                            assert(then(then(done, before), step) =~= RenderOut {
                                tokens: e.tokens(),
                                replacements: repl as nat,
                                errors: errs as nat,
                                faulted: false,
                            });
                            i = n;
                        },
                    }
                } else if tag_at_exec(&v, rel, "var.") {
                    match find_pair_at(&v, rel + 6, '}', '}') {
                        Some(end) => {
                            proof {
                                lemma_find_pair_bounds(v@, rel + 6, '}', '}');
                            }
                            let ghost step = var_out(m, v@.subrange(rel + 6, end as int));
                            let ghost rest = render_from(g, src, m, v@, end + 2);
                            proof {
                                lemma_then_assoc(done, then(before, step), rest);
                                lemma_then_assoc(done, before, step);
                                assert(render_from(g, src, m, v@, i as int) == then(
                                    then(before, step),
                                    rest,
                                ));
                            }
                            match render_var(ctx, &v, rel + 6, end, &mut e) {
                                None => {
                                    return Err(RenderFault);
                                },
                                Some((a, b)) => {
                                    proof {
                                        lemma_render_counts(g, src, m, v@, end + 2);
                                    }
                                    repl = repl + a;
                                    errs = errs + b;
                                    assert(then(then(done, before), step) =~= RenderOut {
                                        tokens: e.tokens(),
                                        replacements: repl as nat,
                                        errors: errs as nat,
                                        faulted: false,
                                    });
                                    i = end + 2;
                                },
                            }
                        },
                        None => {
                            let ghost step = out_text(v@.subrange(rel as int, len as int));
                            e.push_range(&v, rel, len);
                            proof {
                                lemma_then_assoc(done, before, step);
                                lemma_text_tokens_empty();
                                assert(render_from(g, src, m, v@, len as int) == out_text(Seq::empty()));
                                assert(then(then(done, before), step) =~= RenderOut {
                                    tokens: e.tokens(),
                                    replacements: repl as nat,
                                    errors: errs as nat,
                                    faulted: false,
                                });
                                assert(then(
                                    RenderOut { tokens: e.tokens(), replacements: repl as nat, errors: errs as nat, faulted: false },
                                    render_from(g, src, m, v@, len as int),
                                ) =~= then(then(done, before), step));
                            }
                            i = len;
                        },
                    }
                } else {
                    let ghost step = out_text("{{"@);
                    let ghost rest = render_from(g, src, m, v@, rel + 2);
                    proof {
                        lemma_then_assoc(done, then(before, step), rest);
                        lemma_then_assoc(done, before, step);
                    }
                    e.push_str("{{");
                    assert(then(then(done, before), step) =~= RenderOut {
                        tokens: e.tokens(),
                        replacements: repl as nat,
                        errors: errs as nat,
                        faulted: false,
                    });
                    i = rel + 2;
                }
            },
        }
    }
    proof {
        lemma_text_tokens_empty();
    }
    assert(then(
        RenderOut { tokens: e.tokens(), replacements: repl as nat, errors: errs as nat, faulted: false },
        render_from(g, src, m, v@, i as int),
    ).tokens =~= e.tokens());
    e.finish(out);
    Ok((repl, errs))
}

/// Renders `content`, appending the output to `out`; answers the number of
/// placeholders replaced and the number of errors (invalid index, format or
/// variable; an invalid format counts as both).
pub fn render_into(pal: &Palette, ctx: &RenderCtx, content: &str, out: &mut Vec<Piece>) -> (r: (
    usize,
    usize,
))
    requires
        !render(pal, ctx, content@).faulted,
    ensures
        r.0 == render(pal, ctx, content@).replacements,
        r.1 == render(pal, ctx, content@).errors,
        pieces_tokens(final(out)@) == pieces_tokens(old(out)@) + render(pal, ctx, content@).tokens,
{
    match try_render_into(pal, ctx, content, out) {
        Ok(x) => x,
        Err(_) => (0, 0),
    }
}

/// One `[[templates]]` entry of the configuration.
pub struct TemplateConfig {
    pub name: String,
    /// Input template. Must come together with `output`.
    pub template: Option<String>,
    /// Output path(s). Must come together with `template`.
    pub output: Option<Vec<String>>,
    /// Post-command(s). May stand alone without template/outputs.
    pub command: Option<Vec<String>>,
    pub header: Option<String>,
    pub footer: Option<String>,
}

/// Why a template entry was refused; each names the entry.
#[derive(Debug, Clone, PartialEq, Eq)]
pub enum EntryError {
    /// Exactly one of a template and a non-empty output list.
    TemplateWithoutOutput(String),
    /// A header or footer without a template.
    HeaderWithoutTemplate(String),
    /// No template and no command.
    NothingToDo(String),
}

impl EntryError {
    /// The name of the refused entry.
    pub open spec fn entry_name(&self) -> Seq<char> {
        match self {
            EntryError::TemplateWithoutOutput(n) => n@,
            EntryError::HeaderWithoutTemplate(n) => n@,
            EntryError::NothingToDo(n) => n@,
        }
    }
}

/// The entry has a template.
pub open spec fn has_template(cfg: &TemplateConfig) -> bool {
    cfg.template is Some
}

/// The entry has at least one output path.
pub open spec fn has_outputs(cfg: &TemplateConfig) -> bool {
    cfg.output matches Some(o) && o@.len() > 0
}

/// The entry has at least one command.
pub open spec fn has_commands(cfg: &TemplateConfig) -> bool {
    cfg.command matches Some(c) && c@.len() > 0
}

/// Checks an entry: a template comes with outputs and outputs with a
/// template; a header or footer needs a template; an entry without a template
/// needs a command.
pub fn validate_entry(cfg: &TemplateConfig) -> (res: Result<(), EntryError>)
    ensures
        has_template(cfg) != has_outputs(cfg) <==> res matches Err(
            EntryError::TemplateWithoutOutput(_),
        ),
        has_template(cfg) == has_outputs(cfg) && (cfg.header is Some || cfg.footer is Some)
            && !has_template(cfg) <==> res matches Err(EntryError::HeaderWithoutTemplate(_)),
        has_template(cfg) == has_outputs(cfg) && cfg.header is None && cfg.footer is None
            && !has_template(cfg) && !has_commands(cfg) <==> res matches Err(
            EntryError::NothingToDo(_),
        ),
        res matches Err(e) ==> e.entry_name() == cfg.name@,
{
    let has_template = cfg.template.is_some();
    let has_outputs = match &cfg.output {
        Some(o) => o.len() > 0,
        None => false,
    };
    let has_commands = match &cfg.command {
        Some(c) => c.len() > 0,
        None => false,
    };
    if has_template != has_outputs {
        return Err(EntryError::TemplateWithoutOutput(cfg.name.clone()));
    }
    if (cfg.header.is_some() || cfg.footer.is_some()) && !has_template {
        return Err(EntryError::HeaderWithoutTemplate(cfg.name.clone()));
    }
    if !has_template && !has_commands {
        return Err(EntryError::NothingToDo(cfg.name.clone()));
    }
    Ok(())
}

/// `s` without any trailing copies of `c`.
pub open spec fn strip_trailing(s: Seq<char>, c: char) -> Seq<char>
    decreases s.len(),
{
    if s.len() > 0 && s.last() == c {
        strip_trailing(s.drop_last(), c)
    } else {
        s
    }
}

/// The file an entry writes: its header, its rendered template and its
/// footer, each with the blank lines at its outer edge dropped, separated by
/// one blank line; empty parts are left out.
pub open spec fn assembled(main: Seq<char>, header: Seq<char>, footer: Seq<char>) -> Seq<char> {
    let m = strip_trailing(main, '\n');
    let h = strip_trailing(header, '\n');
    let f = crate::text::strip_leading(footer, '\n');
    let head = if h.len() > 0 {
        h + "\n\n"@
    } else {
        Seq::empty()
    };
    let tail = if f.len() > 0 {
        (if m.len() > 0 || h.len() > 0 {
            "\n\n"@
        } else {
            Seq::empty()
        }) + f
    } else {
        Seq::empty()
    };
    head + m + tail
}

/// Puts the rendered header, template and footer of an entry together.
pub fn assemble_output(main: &str, header: &str, footer: &str) -> (s: String)
    ensures
        s@ == assembled(main@, header@, footer@),
{
    let mv = chars_of(main);
    let hv = chars_of(header);
    let fv = chars_of(footer);
    let me = strip_trailing_end(&mv, '\n');
    let he = strip_trailing_end(&hv, '\n');
    let fs = crate::text::skip_leading(&fv, 0, fv.len(), '\n');
    assert(fv@.subrange(0, fv@.len() as int) =~= fv@);
    let ghost m = mv@.subrange(0, me as int);
    let ghost h = hv@.subrange(0, he as int);
    let ghost f = fv@.subrange(fs as int, fv@.len() as int);
    assert(m.len() == me && h.len() == he && f.len() == fv@.len() - fs);
    let mut out: Vec<char> = Vec::new();
    if he > 0 {
        push_range(&mut out, &hv, 0, he);
        push_str(&mut out, "\n\n");
    }
    push_range(&mut out, &mv, 0, me);
    if fs < fv.len() {
        if me > 0 || he > 0 {
            push_str(&mut out, "\n\n");
        }
        push_range(&mut out, &fv, fs, fv.len());
    }
    assert(out@ =~= assembled(main@, header@, footer@));
    string_from_chars(out.as_slice())
}

/// The end of `v` once its trailing `c`s are dropped.
fn strip_trailing_end(v: &Vec<char>, c: char) -> (b: usize)
    ensures
        b <= v@.len(),
        v@.subrange(0, b as int) == strip_trailing(v@, c),
{
    let mut b = v.len();
    assert(v@.subrange(0, b as int) =~= v@);
    while b > 0 && v[b - 1] == c
        invariant
            b <= v@.len(),
            strip_trailing(v@.subrange(0, b as int), c) == strip_trailing(v@, c),
        decreases b,
    {
        assert(v@.subrange(0, b as int).drop_last() =~= v@.subrange(0, b - 1));
        b -= 1;
    }
    b
}

/// The `k`-th variable of the environment handed to post-commands: the
/// source color as `#RRGGBB` and as `r, g, b`, then for each gradient step
/// `i` (from 1) its `#RRGGBB` and `r, g, b` under `BNCHROMA_Cii_HEX` and
/// `BNCHROMA_Cii_RGB`.
pub open spec fn env_entry(grad: Seq<ColorModel>, source: Rgb, k: int) -> (Seq<char>, Seq<char>) {
    if k == 0 {
        ("BNCHROMA_ACCENT"@, hex_text(source, false))
    } else if k == 1 {
        ("BNCHROMA_ACCENT_RGB"@, rgb_text(source, true))
    } else {
        let i = (k - 2) / 2;
        let tag = "BNCHROMA_C"@ + dec_pad2((i + 1) as nat);
        if (k - 2) % 2 == 0 {
            (tag + "_HEX"@, hex_text(grad[i].0, false))
        } else {
            (tag + "_RGB"@, rgb_text(grad[i].0, true))
        }
    }
}

/// The environment handed to post-commands.
pub fn command_env(pal: &Palette, source: Rgb) -> (env: Vec<(String, String)>)
    ensures
        env@.len() == 2 + 2 * pal.grad_model().len(),
        forall|k: int|
            0 <= k < env@.len() ==> (#[trigger] env@[k].0@, env@[k].1@) == env_entry(
                pal.grad_model(),
                source,
                k,
            ),
{
    proof {
        use_type_invariant(pal);
    }
    let mut env: Vec<(String, String)> = Vec::new();
    env.push(("BNCHROMA_ACCENT".to_owned(), hex_string(source, false)));
    env.push(("BNCHROMA_ACCENT_RGB".to_owned(), rgb_string(source, true)));
    let n = pal.grad.len();
    let mut i: usize = 0;
    while i < n
        invariant
            n == pal.grad@.len(),
            n == pal.grad_model().len(),
            i <= n,
            forall|j: int| 0 <= j < n ==> (#[trigger] pal.grad@[j]).wf(),
            env@.len() == 2 + 2 * i,
            forall|k: int|
                0 <= k < env@.len() ==> (#[trigger] env@[k].0@, env@[k].1@) == env_entry(
                    pal.grad_model(),
                    source,
                    k,
                ),
        decreases n - i,
    {
        let c = &pal.grad[i];
        assert(pal.grad_model()[i as int] == c.model());
        let mut tag: Vec<char> = Vec::new();
        push_str(&mut tag, "BNCHROMA_C");
        push_dec_pad2(&mut tag, (i + 1) as u64);
        let mut hex_name = tag.clone();
        push_str(&mut hex_name, "_HEX");
        let mut rgb_name = tag.clone();
        push_str(&mut rgb_name, "_RGB");
        let ghost k0 = 2 + 2 * i as int;
        assert((k0 - 2) / 2 == i as int && (k0 - 2) % 2 == 0);
        assert((k0 + 1 - 2) / 2 == i as int && (k0 + 1 - 2) % 2 == 1);
        env.push((string_from_chars(hex_name.as_slice()), c.hex.clone()));
        env.push((string_from_chars(rgb_name.as_slice()), c.rgb_stripped.clone()));
        i += 1;
    }
    env
}

/// The `#rrggbb` that the gradient is built from: the given color (leading
/// `#`s dropped, then one put back) if there is one, else the palette color
/// at the 1-based `color_index`, clamped into the palette.
pub open spec fn source_hex(color: Option<Seq<char>>, color_index: usize, colors: Seq<[u8; 3]>) -> Result<
    Seq<char>,
    HexError,
> {
    match color {
        Some(c) => {
            let clean = crate::text::strip_leading(c, '#');
            match parse_hex(encode_utf8(clean)) {
                Ok(_) => Ok("#"@ + clean),
                Err(e) => Err(e),
            }
        },
        None => {
            let want = if color_index >= 1 {
                color_index - 1
            } else {
                0
            };
            let idx = if want < colors.len() - 1 {
                want
            } else {
                colors.len() - 1
            };
            let c = colors[idx];
            Ok("#"@ + hex2(c[0], false) + hex2(c[1], false) + hex2(c[2], false))
        },
    }
}

/// Chooses the color the gradient is built from; see `source_hex`.
pub fn select_source_hex(color: Option<&str>, color_index: usize, colors: &[[u8; 3]]) -> (res: Result<
    String,
    HexError,
>)
    requires
        color is None ==> colors@.len() > 0,
        color matches Some(c) ==> !hex_split_breaks_char(
            encode_utf8(crate::text::strip_leading(c@, '#')),
        ),
    ensures
        match (res, source_hex(
            match color {
                Some(c) => Some(c@),
                None => None,
            },
            color_index,
            colors@,
        )) {
            (Ok(s), Ok(t)) => s@ == t,
            (Err(e), Err(f)) => e == f,
            _ => false,
        },
{
    match color {
        Some(c) => {
            let v = chars_of(c);
            let a = crate::text::skip_leading(&v, 0, v.len(), '#');
            assert(v@.subrange(0, v@.len() as int) =~= v@);
            let clean = range_string(&v, a, v.len());
            match crate::utils::hex_to_rgb(clean.as_str()) {
                Ok(_) => {
                    let mut out: Vec<char> = Vec::new();
                    out.push('#');
                    push_range(&mut out, &v, a, v.len());
                    assert(out@ =~= "#"@ + clean@) by {
                        reveal_strlit("#");
                    }
                    Ok(string_from_chars(out.as_slice()))
                },
                Err(e) => Err(e),
            }
        },
        None => {
            let want = color_index.saturating_sub(1);
            let last = colors.len() - 1;
            let idx = if want < last {
                want
            } else {
                last
            };
            let c = colors[idx];
            let mut out: Vec<char> = Vec::new();
            push_str(&mut out, "#");
            crate::text::push_hex2(&mut out, c[0], false);
            crate::text::push_hex2(&mut out, c[1], false);
            crate::text::push_hex2(&mut out, c[2], false);
            assert(out@ =~= "#"@ + hex2(c[0], false) + hex2(c[1], false) + hex2(c[2], false));
            Ok(string_from_chars(out.as_slice()))
        },
    }
}

/// Law: the color the gradient is built from always reads as a color: where
/// `source_hex` answers a text, that text parses.
pub proof fn law_source_hex_parses(
    color: Option<Seq<char>>,
    color_index: usize,
    colors: Seq<[u8; 3]>,
)
    requires
        color is None ==> colors.len() > 0,
    ensures
        source_hex(color, color_index, colors) matches Ok(t) ==> parse_hex(encode_utf8(t)) is Ok,
{
    reveal_strlit("#");
    match color {
        Some(c) => {
            let clean = crate::text::strip_leading(c, '#');
            let t = "#"@ + clean;
            let b = encode_utf8(t);
            assert(t[0] == '#');
            assert(t.drop_first() =~= clean);
            assert(b == vstd::utf8::encode_scalar(t[0] as u32) + encode_utf8(t.drop_first()));
            assert(vstd::utf8::leading_byte_width_1(35u32) == 35u8) by (bit_vector);
            assert(vstd::utf8::encode_scalar('#' as u32) =~= seq![35u8]);
            assert(b =~= seq![35u8] + encode_utf8(clean));
            assert(b.drop_first() =~= encode_utf8(clean));
            assert(crate::utils::strip_hashes(b) == crate::utils::strip_hashes(encode_utf8(clean)));
        },
        None => {
            let want = if color_index >= 1 {
                color_index - 1
            } else {
                0
            };
            let idx = if want < colors.len() - 1 {
                want
            } else {
                colors.len() - 1
            };
            let c = colors[idx];
            crate::pick::law_hex_line_parses(c);
            assert(crate::pick::hex_line(c) =~= "#"@ + hex2(c[0], false) + hex2(c[1], false) + hex2(
                c[2],
                false,
            ));
        },
    }
}

/// Law: the `hex` rendering of a color (with or without `#`) reads back as
/// the same color.
pub proof fn law_hex_text_parses(c: Rgb, strip: bool)
    ensures
        parse_hex(encode_utf8(hex_text(c, strip))) == Ok::<Rgb, HexError>(c),
{
    let body = hex2(c.0, true) + hex2(c.1, true) + hex2(c.2, true);
    let t = hex_text(c, strip);
    assert(vstd::utf8::is_ascii_chars(t)) by {
        reveal_strlit("#");
    }
    vstd::utf8::is_ascii_chars_encode_utf8(t);
    let b = encode_utf8(t);
    crate::utils::lemma_channel_of_hex2(c.0, true);
    crate::utils::lemma_channel_of_hex2(c.1, true);
    crate::utils::lemma_channel_of_hex2(c.2, true);
    if strip {
        assert(t =~= body);
        assert(crate::utils::strip_hashes(b) == b);
        assert(b[0] == body[0] as u8 && b[1] == body[1] as u8);
        assert(b[2] == body[2] as u8 && b[3] == body[3] as u8);
        assert(b[4] == body[4] as u8 && b[5] == body[5] as u8);
    } else {
        reveal_strlit("#");
        assert(t =~= seq!['#'] + body);
        assert(b.len() == 7);
        assert(b[0] == 35u8);
        assert(b.drop_first()[0] == b[1]);
        assert(crate::utils::strip_hashes(b.drop_first()) == b.drop_first());
        assert(crate::utils::strip_hashes(b) == b.drop_first());
        assert(b[1] == body[0] as u8 && b[2] == body[1] as u8);
        assert(b[3] == body[2] as u8 && b[4] == body[3] as u8);
        assert(b[5] == body[4] as u8 && b[6] == body[5] as u8);
    }
}

/// Law: a template without `{{` renders to itself, with no replacement and
/// no error.
pub proof fn law_plain_text_unchanged(pal: &Palette, ctx: &RenderCtx, s: Seq<char>)
    requires
        find_pair(s, 0, '{', '{') is None,
    ensures
        render(pal, ctx, s) == out_text(s),
{
    assert(s.subrange(0, s.len() as int) =~= s);
    if s.len() == 0 {
        assert(s =~= Seq::<char>::empty());
    }
}

/// Whether an entry's commands run: when it has no output, or when one of
/// its outputs changed.
pub fn runs_commands(output_count: usize, any_changed: bool) -> (r: bool)
    ensures
        r == (output_count == 0 || any_changed),
{
    !(output_count > 0 && !any_changed)
}

/// `find_pair` answers the first match.
pub proof fn lemma_find_pair_first(s: Seq<char>, from: int, e: int, a: char, b: char)
    requires
        0 <= from <= e,
        e + 2 <= s.len(),
        s[e] == a && s[e + 1] == b,
        forall|k: int| from <= k < e ==> !(s[k] == a && #[trigger] s[k + 1] == b),
    ensures
        find_pair(s, from, a, b) == Some(e),
    decreases e - from,
{
    if from < e {
        lemma_find_pair_first(s, from + 1, e, a, b);
    }
}

/// A lone placeholder renders to what its step renders to.
proof fn lemma_then_alone(r: RenderOut)
    ensures
        then(then(out_text(Seq::empty()), r), out_text(Seq::empty())) == r,
{
    lemma_text_tokens_empty();
    let a = then(out_text(Seq::empty()), r);
    assert(a.tokens =~= r.tokens);
    assert(then(a, out_text(Seq::empty())).tokens =~= r.tokens);
}

/// `{{var.<inner>}}`, for an `inner` without `}`, renders as `var_out` says.
pub proof fn lemma_var_placeholder(pal: &Palette, ctx: &RenderCtx, inner: Seq<char>)
    requires
        forall|k: int| 0 <= k < inner.len() ==> inner[k] != '}',
    ensures
        render(pal, ctx, "{{var."@ + inner + "}}"@) == var_out(ctx.vars_map(), inner),
{
    reveal_strlit("{{var.");
    reveal_strlit("}}");
    reveal_strlit("var.");
    reveal_strlit("col.");
    let n = inner.len() as int;
    let s = "{{var."@ + inner + "}}"@;
    assert(s.len() == n + 8);
    assert(s[0] == '{' && s[1] == '{');
    lemma_find_pair_first(s, 0, 0, '{', '{');
    assert(s.subrange(2, 6) =~= "var."@);
    assert(s.subrange(2, 6)[0] != "col."@[0]);
    assert(!tag_at(s, 0, "col."@));
    assert(tag_at(s, 0, "var."@));
    assert forall|k: int| 6 <= k < n + 6 implies !(s[k] == '}' && #[trigger] s[k + 1] == '}') by {
        assert(s[k] == inner[k - 6]);
    }
    assert(s[n + 6] == '}' && s[n + 7] == '}');
    lemma_find_pair_first(s, 6, n + 6, '}', '}');
    assert(s.subrange(6, n + 6) =~= inner);
    assert(s.subrange(0, 0) =~= Seq::<char>::empty());
    let g = pal.grad_model();
    let src = pal.source_model();
    let m = ctx.vars_map();
    assert(render_from(g, src, m, s, n + 8) == out_text(Seq::empty()));
    lemma_then_alone(var_out(m, inner));
}

/// Law: `{{var.NAME}}` renders the value of the variable `NAME`, and counts
/// one replacement (for a name without `}` or surrounding whitespace that is
/// not itself a `.rgb` reading).
pub proof fn law_var_placeholder(pal: &Palette, ctx: &RenderCtx, name: Seq<char>)
    requires
        name.len() > 0,
        trim(name) == name,
        forall|k: int| 0 <= k < name.len() ==> name[k] != '}',
        !(name.len() >= 4 && name.skip(name.len() - 4) == ".rgb"@),
        ctx.vars_map().contains_key(name),
    ensures
        render(pal, ctx, "{{var."@ + name + "}}"@) == out_replaced(
            text_tokens(ctx.vars_map()[name]),
        ),
{
    lemma_var_placeholder(pal, ctx, name);
}

/// Law: `{{var.NAME}}` for a name that is no variable renders
/// `{{ INVALID_VAR }}` and counts one error (for a name without `}` or
/// surrounding whitespace that is not itself a `.rgb` reading).
pub proof fn law_unknown_var_placeholder(pal: &Palette, ctx: &RenderCtx, name: Seq<char>)
    requires
        trim(name) == name,
        forall|k: int| 0 <= k < name.len() ==> name[k] != '}',
        !(name.len() >= 4 && name.skip(name.len() - 4) == ".rgb"@),
        !ctx.vars_map().contains_key(name),
    ensures
        render(pal, ctx, "{{var."@ + name + "}}"@) == out_error("{{ INVALID_VAR }}"@),
{
    lemma_var_placeholder(pal, ctx, name);
}

/// Law: `{{var.NAME.rgb}}` renders the channels of the variable `NAME` read
/// as a hex color, as `r, g, b`, and counts one replacement (for a name
/// without `}` or surrounding whitespace).
pub proof fn law_var_rgb_placeholder(pal: &Palette, ctx: &RenderCtx, name: Seq<char>, c: Rgb)
    requires
        name.len() > 0,
        trim(name) == name,
        forall|k: int| 0 <= k < name.len() ==> name[k] != '}',
        ctx.vars_map().contains_key(name),
        !hex_split_breaks_char(encode_utf8(ctx.vars_map()[name])),
        parse_hex(encode_utf8(ctx.vars_map()[name])) == Ok::<Rgb, HexError>(c),
    ensures
        render(pal, ctx, "{{var."@ + name + ".rgb}}"@) == out_replaced(
            text_tokens(rgb_text(c, true)),
        ),
{
    reveal_strlit(".rgb");
    reveal_strlit(".rgb}}");
    reveal_strlit("}}");
    let inner = name + ".rgb"@;
    assert("{{var."@ + name + ".rgb}}"@ =~= "{{var."@ + inner + "}}"@);
    assert forall|k: int| 0 <= k < inner.len() implies inner[k] != '}' by {
        if k >= name.len() {
            assert(inner[k] == ".rgb"@[k - name.len()]);
        }
    }
    lemma_var_placeholder(pal, ctx, inner);
    crate::text::lemma_trim_append_word(name, ".rgb"@);
    assert(inner.skip(inner.len() - 4) =~= ".rgb"@);
    assert(inner.take(inner.len() - 4) =~= name);
}

/// `scan_to` answers the first match.
pub proof fn lemma_scan_to_first(s: Seq<char>, from: int, e: int, a: char, b: char)
    requires
        0 <= from <= e < s.len(),
        s[e] == a || s[e] == b,
        forall|k: int| from <= k < e ==> #[trigger] s[k] != a && s[k] != b,
    ensures
        scan_to(s, from, a, b) == e,
    decreases e - from,
{
    if from < e {
        lemma_scan_to_first(s, from + 1, e, a, b);
    }
}

/// The decimal rendering is digits and reads back as the number.
pub proof fn lemma_dec_digits(n: nat)
    ensures
        all_digits(dec(n)),
        digits_value(dec(n)) == n,
        dec(n).len() >= 1,
    decreases n,
{
    if n >= 10 {
        lemma_dec_digits(n / 10);
        let d = dec(n / 10);
        let t = d.push(crate::text::digit_char(n % 10));
        assert(t.drop_last() =~= d);
        assert(forall|k: int| 0 <= k < d.len() ==> t[k] == d[k]);
        assert(t.last() as int == (n % 10) + 48);
        assert(digits_value(t) == digits_value(d) * 10 + (n % 10));
        assert((n / 10) * 10 + n % 10 == n);
        assert(dec(n) == t);
    } else {
        let t = dec(n);
        assert(t.drop_last() =~= Seq::<char>::empty());
        assert(t.last() as int == n + 48);
        assert(digits_value(t.drop_last()) == 0);
        assert(digits_value(t) == n);
    }
}

/// `{{col.<name>.<fmt>}}`, for a name without `.` or `}` and a format
/// without `|` or `}`, renders as `resolve_color` says of it.
pub proof fn lemma_col_placeholder(pal: &Palette, ctx: &RenderCtx, name: Seq<char>, fmt: Seq<char>)
    requires
        forall|k: int| 0 <= k < name.len() ==> name[k] != '.' && name[k] != '}',
        forall|k: int| 0 <= k < fmt.len() ==> fmt[k] != '|' && fmt[k] != '}',
    ensures
        render(pal, ctx, "{{col."@ + name + "."@ + fmt + "}}"@) == resolve_color(
            pal.grad_model(),
            pal.source_model(),
            name,
            fmt,
            None,
        ),
{
    reveal_strlit("{{col.");
    reveal_strlit(".");
    reveal_strlit("}}");
    reveal_strlit("col.");
    let w = name.len() as int;
    let f = fmt.len() as int;
    let s = "{{col."@ + name + "."@ + fmt + "}}"@;
    assert(s.len() == w + f + 9);
    assert(s[0] == '{' && s[1] == '{');
    lemma_find_pair_first(s, 0, 0, '{', '{');
    assert(s.subrange(2, 6) =~= "col."@);
    assert(tag_at(s, 0, "col."@));
    assert forall|k: int| 6 <= k < w + 6 implies #[trigger] s[k] != '.' && s[k] != '}' by {
        assert(s[k] == name[k - 6]);
    }
    assert(s[w + 6] == '.');
    lemma_scan_to_first(s, 6, w + 6, '.', '}');
    assert forall|k: int| w + 7 <= k < w + 7 + f implies #[trigger] s[k] != '|' && s[k] != '}' by {
        assert(s[k] == fmt[k - w - 7]);
    }
    assert(s[w + 7 + f] == '}' && s[w + 8 + f] == '}');
    lemma_scan_to_first(s, w + 7, w + 7 + f, '|', '}');
    assert(s.subrange(6, w + 6) =~= name);
    assert(s.subrange(w + 7, w + 7 + f) =~= fmt);
    assert(s.subrange(0, 0) =~= Seq::<char>::empty());
    let g = pal.grad_model();
    let src = pal.source_model();
    let m = ctx.vars_map();
    let r = resolve_color(g, src, name, fmt, None);
    assert(col_step(g, src, s, 0) == (r, w + f + 9));
    assert(render_from(g, src, m, s, w + f + 9) == out_text(Seq::empty()));
    lemma_then_alone(r);
}

/// `{{col.<name>.<fmt>|<mods>}}`, for a name without `.` or `}`, a format
/// without `|` or `}` and non-empty modifiers without `}`, renders as
/// `resolve_color` says of it, the format trimmed at its end.
pub proof fn lemma_col_mods_placeholder(
    pal: &Palette,
    ctx: &RenderCtx,
    name: Seq<char>,
    fmt: Seq<char>,
    mods: Seq<char>,
)
    requires
        forall|k: int| 0 <= k < name.len() ==> name[k] != '.' && name[k] != '}',
        forall|k: int| 0 <= k < fmt.len() ==> fmt[k] != '|' && fmt[k] != '}',
        mods.len() > 0,
        forall|k: int| 0 <= k < mods.len() ==> mods[k] != '}',
    ensures
        render(pal, ctx, "{{col."@ + name + "."@ + fmt + "|"@ + mods + "}}"@) == resolve_color(
            pal.grad_model(),
            pal.source_model(),
            name,
            trim_end(fmt),
            Some(mods),
        ),
{
    reveal_strlit("{{col.");
    reveal_strlit(".");
    reveal_strlit("|");
    reveal_strlit("}}");
    reveal_strlit("col.");
    let w = name.len() as int;
    let f = fmt.len() as int;
    let q = mods.len() as int;
    let s = "{{col."@ + name + "."@ + fmt + "|"@ + mods + "}}"@;
    assert(s.len() == w + f + q + 10);
    assert(s[0] == '{' && s[1] == '{');
    lemma_find_pair_first(s, 0, 0, '{', '{');
    assert(s.subrange(2, 6) =~= "col."@);
    assert(tag_at(s, 0, "col."@));
    assert forall|k: int| 6 <= k < w + 6 implies #[trigger] s[k] != '.' && s[k] != '}' by {
        assert(s[k] == name[k - 6]);
    }
    assert(s[w + 6] == '.');
    lemma_scan_to_first(s, 6, w + 6, '.', '}');
    assert forall|k: int| w + 7 <= k < w + 7 + f implies #[trigger] s[k] != '|' && s[k] != '}' by {
        assert(s[k] == fmt[k - w - 7]);
    }
    assert(s[w + 7 + f] == '|');
    lemma_scan_to_first(s, w + 7, w + 7 + f, '|', '}');
    let ms = w + 8 + f;
    assert forall|k: int| ms <= k < ms + q implies !(s[k] == '}' && #[trigger] s[k + 1] == '}') by {
        assert(s[k] == mods[k - ms]);
    }
    assert(s[ms + q] == '}' && s[ms + q + 1] == '}');
    lemma_find_pair_first(s, ms, ms + q, '}', '}');
    assert(s.subrange(6, w + 6) =~= name);
    assert(s.subrange(w + 7, w + 7 + f) =~= fmt);
    assert(s.subrange(ms, ms + q) =~= mods);
    assert(s.subrange(0, 0) =~= Seq::<char>::empty());
    let g = pal.grad_model();
    let src = pal.source_model();
    let m = ctx.vars_map();
    let r = resolve_color(g, src, name, trim_end(fmt), Some(mods));
    assert(col_step(g, src, s, 0) == (r, w + f + q + 10));
    assert(render_from(g, src, m, s, w + f + q + 10) == out_text(Seq::empty()));
    lemma_then_alone(r);
}

/// The decimal rendering of a number holds no `.` or `}`, and is not
/// `source`.
proof fn lemma_dec_name(n: nat)
    ensures
        forall|k: int| 0 <= k < dec(n).len() ==> dec(n)[k] != '.' && dec(n)[k] != '}',
        dec(n) != "source"@,
        all_digits(dec(n)),
        digits_value(dec(n)) == n,
{
    lemma_dec_digits(n);
    reveal_strlit("source");
    assert(dec(n)[0] != "source"@[0]);
}

/// Law: `{{col.N.FMT}}` renders gradient step `N` (1 to 16) in format
/// `FMT` (for a format without `|` or `}`).
pub proof fn law_col_index_placeholder(pal: &Palette, ctx: &RenderCtx, n: nat, fmt: Seq<char>)
    requires
        1 <= n <= 16,
        n <= pal.grad_model().len(),
        forall|k: int| 0 <= k < fmt.len() ==> fmt[k] != '|' && fmt[k] != '}',
    ensures
        render(pal, ctx, "{{col."@ + dec(n) + "."@ + fmt + "}}"@) == color_out(
            pal.grad_model()[n - 1],
            fmt,
            no_mods(),
        ),
{
    lemma_dec_name(n);
    lemma_col_placeholder(pal, ctx, dec(n), fmt);
}

/// Law: `{{col.N.FMT | MODS}}` renders gradient step `N` (1 to 16) in format
/// `FMT` (trimmed at its end) with the modifiers `MODS` applied in order
/// (for a format without `|` or `}` and non-empty modifiers without `}`).
pub proof fn law_col_mods_placeholder(
    pal: &Palette,
    ctx: &RenderCtx,
    n: nat,
    fmt: Seq<char>,
    mods: Seq<char>,
)
    requires
        1 <= n <= 16,
        n <= pal.grad_model().len(),
        forall|k: int| 0 <= k < fmt.len() ==> fmt[k] != '|' && fmt[k] != '}',
        mods.len() > 0,
        forall|k: int| 0 <= k < mods.len() ==> mods[k] != '}',
    ensures
        render(pal, ctx, "{{col."@ + dec(n) + "."@ + fmt + "|"@ + mods + "}}"@) == color_out(
            pal.grad_model()[n - 1],
            trim_end(fmt),
            mods_of(split_on(mods, '|')),
        ),
{
    lemma_dec_name(n);
    lemma_col_mods_placeholder(pal, ctx, dec(n), fmt, mods);
}

/// Law: `{{col.N.hex}}` renders gradient step `N` (1 to 16) as `#RRGGBB`,
/// and counts one replacement.
pub proof fn law_col_hex_placeholder(pal: &Palette, ctx: &RenderCtx, n: nat)
    requires
        1 <= n <= 16,
        n <= pal.grad_model().len(),
    ensures
        render(pal, ctx, "{{col."@ + dec(n) + ".hex}}"@) == out_replaced(
            text_tokens(hex_text(pal.grad_model()[n - 1].0, false)),
        ),
{
    reveal_strlit("hex");
    reveal_strlit(".");
    reveal_strlit(".hex}}");
    reveal_strlit("}}");
    assert("{{col."@ + dec(n) + ".hex}}"@ =~= "{{col."@ + dec(n) + "."@ + "hex"@ + "}}"@);
    law_col_index_placeholder(pal, ctx, n, "hex"@);
}

/// Law: `{{col.source.FMT}}` renders the source color in format `FMT` (for a
/// format without `|` or `}`).
pub proof fn law_col_source_placeholder(pal: &Palette, ctx: &RenderCtx, fmt: Seq<char>)
    requires
        forall|k: int| 0 <= k < fmt.len() ==> fmt[k] != '|' && fmt[k] != '}',
    ensures
        render(pal, ctx, "{{col.source."@ + fmt + "}}"@) == color_out(
            pal.source_model(),
            fmt,
            no_mods(),
        ),
{
    reveal_strlit("source");
    reveal_strlit("{{col.source.");
    reveal_strlit("{{col.");
    reveal_strlit(".");
    assert("{{col.source."@ =~= "{{col."@ + "source"@ + "."@);
    assert forall|k: int| 0 <= k < "source"@.len() implies "source"@[k] != '.' && "source"@[k] != '}' by {}
    lemma_col_placeholder(pal, ctx, "source"@, fmt);
}

/// Law: `{{col.N.FMT}}` with an index outside 1 to 16 renders
/// `{{ INVALID_INDEX }}` and counts one error (for a format without `|` or
/// `}`).
pub proof fn law_col_invalid_index(pal: &Palette, ctx: &RenderCtx, n: nat, fmt: Seq<char>)
    requires
        n == 0 || n > 16,
        forall|k: int| 0 <= k < fmt.len() ==> fmt[k] != '|' && fmt[k] != '}',
    ensures
        render(pal, ctx, "{{col."@ + dec(n) + "."@ + fmt + "}}"@) == out_error(
            "{{ INVALID_INDEX }}"@,
        ),
{
    lemma_dec_name(n);
    lemma_col_placeholder(pal, ctx, dec(n), fmt);
}

/// Law: `{{col.NAME.FMT}}` with a mistyped name, neither `source` nor a run
/// of digits, renders `{{ INVALID_INDEX }}` and counts one error (for a name
/// without `.` or `}` and a format without `|` or `}`).
pub proof fn law_col_mistyped_name(pal: &Palette, ctx: &RenderCtx, name: Seq<char>, fmt: Seq<char>)
    requires
        name != "source"@,
        !all_digits(name),
        forall|k: int| 0 <= k < name.len() ==> name[k] != '.' && name[k] != '}',
        forall|k: int| 0 <= k < fmt.len() ==> fmt[k] != '|' && fmt[k] != '}',
    ensures
        render(pal, ctx, "{{col."@ + name + "."@ + fmt + "}}"@) == out_error(
            "{{ INVALID_INDEX }}"@,
        ),
{
    lemma_col_placeholder(pal, ctx, name, fmt);
}

/// Law: a color placeholder with a format other than `hex`, `rgb`, `rgba`
/// and `hsl` renders `{{ INVALID_FORMAT }}`, and counts as a replacement and
/// an error (for a format without `|` or `}`).
pub proof fn law_col_invalid_format(pal: &Palette, ctx: &RenderCtx, fmt: Seq<char>)
    requires
        fmt != "hex"@ && fmt != "rgb"@ && fmt != "rgba"@ && fmt != "hsl"@,
        forall|k: int| 0 <= k < fmt.len() ==> fmt[k] != '|' && fmt[k] != '}',
    ensures
        render(pal, ctx, "{{col.source."@ + fmt + "}}"@) == (RenderOut {
            tokens: text_tokens("{{ INVALID_FORMAT }}"@),
            replacements: 1,
            errors: 1,
            faulted: false,
        }),
{
    law_col_source_placeholder(pal, ctx, fmt);
}

/// Cutting a text after a prefix of `n` characters shifts its ranges by `n`.
proof fn lemma_subrange_shift(a: Seq<char>, b: Seq<char>, x: int, y: int)
    requires
        0 <= x <= y <= b.len(),
    ensures
        (a + b).subrange(x + a.len(), y + a.len()) == b.subrange(x, y),
{
    assert((a + b).subrange(x + a.len(), y + a.len()) =~= b.subrange(x, y));
}

/// `find_pair` past a prefix finds what it finds in the rest, shifted.
proof fn lemma_find_pair_shift(a: Seq<char>, b: Seq<char>, i: int, x: char, y: char)
    requires
        0 <= i,
    ensures
        find_pair(a + b, i + a.len(), x, y) == match find_pair(b, i, x, y) {
            Some(k) => Some(k + a.len()),
            None => None::<int>,
        },
    decreases b.len() - i,
{
    let s = a + b;
    let n = a.len() as int;
    if i + 2 <= b.len() {
        assert(s[i + n] == b[i] && s[i + n + 1] == b[i + 1]);
        if !(b[i] == x && b[i + 1] == y) {
            lemma_find_pair_shift(a, b, i + 1, x, y);
        }
    }
}

/// `scan_to` past a prefix stops where it stops in the rest, shifted.
proof fn lemma_scan_to_shift(a: Seq<char>, b: Seq<char>, i: int, x: char, y: char)
    requires
        0 <= i,
    ensures
        scan_to(a + b, i + a.len(), x, y) == scan_to(b, i, x, y) + a.len(),
    decreases b.len() - i,
{
    let s = a + b;
    let n = a.len() as int;
    if i < b.len() {
        assert(s[i + n] == b[i]);
        if !(b[i] == x || b[i] == y) {
            lemma_scan_to_shift(a, b, i + 1, x, y);
        }
    }
}

/// A tag past a prefix is the tag in the rest.
proof fn lemma_tag_at_shift(a: Seq<char>, b: Seq<char>, rel: int, word: Seq<char>)
    requires
        0 <= rel,
    ensures
        tag_at(a + b, rel + a.len(), word) == tag_at(b, rel, word),
{
    let n = a.len() as int;
    if rel + 6 <= b.len() {
        assert((a + b)[rel + n] == b[rel] && (a + b)[rel + n + 1] == b[rel + 1]);
        lemma_subrange_shift(a, b, rel + 2, rel + 6);
    }
}

/// A color placeholder past a prefix renders as in the rest, and resumes at
/// the shifted position.
proof fn lemma_col_step_shift(
    grad: Seq<ColorModel>,
    source: ColorModel,
    a: Seq<char>,
    b: Seq<char>,
    rel: int,
)
    requires
        0 <= rel,
        tag_at(b, rel, "col."@),
    ensures
        col_step(grad, source, a + b, rel + a.len()).0 == col_step(grad, source, b, rel).0,
        col_step(grad, source, a + b, rel + a.len()).1 == col_step(grad, source, b, rel).1 + a.len(),
{
    let s = a + b;
    let n = a.len() as int;
    lemma_scan_to_shift(a, b, rel + 6, '.', '}');
    lemma_scan_to_bounds(b, rel + 6, '.', '}');
    let j = scan_to(b, rel + 6, '.', '}');
    if j >= b.len() || b[j] != '.' {
        lemma_subrange_shift(a, b, rel, rel + 6);
    } else {
        assert(s[j + n] == b[j]);
        lemma_subrange_shift(a, b, rel + 6, j);
        lemma_scan_to_shift(a, b, j + 1, '|', '}');
        lemma_scan_to_bounds(b, j + 1, '|', '}');
        let k = scan_to(b, j + 1, '|', '}');
        lemma_subrange_shift(a, b, j + 1, k);
        if k < b.len() && b[k] == '|' {
            assert(s[k + n] == b[k]);
            lemma_find_pair_shift(a, b, k + 1, '}', '}');
            lemma_find_pair_bounds(b, k + 1, '}', '}');
            match find_pair(b, k + 1, '}', '}') {
                Some(end) => {
                    lemma_subrange_shift(a, b, rel, end + 2);
                    lemma_subrange_shift(a, b, k + 1, end);
                },
                None => {
                    lemma_subrange_shift(a, b, rel, b.len() as int);
                },
            }
        } else {
            if k < b.len() {
                assert(s[k + n] == b[k]);
            }
            if k + 1 < b.len() {
                assert(s[k + n + 1] == b[k + 1]);
            }
            lemma_subrange_shift(a, b, rel, k);
        }
    }
}

/// Rendering past a prefix renders as the rest does on its own.
pub proof fn lemma_render_from_shift(
    grad: Seq<ColorModel>,
    source: ColorModel,
    vars: Map<Seq<char>, Seq<char>>,
    a: Seq<char>,
    b: Seq<char>,
    i: int,
)
    requires
        0 <= i,
    ensures
        render_from(grad, source, vars, a + b, i + a.len()) == render_from(grad, source, vars, b, i),
    decreases b.len() - i,
{
    let s = a + b;
    let n = a.len() as int;
    if i < b.len() {
        lemma_find_pair_shift(a, b, i, '{', '{');
        lemma_find_pair_bounds(b, i, '{', '{');
        match find_pair(b, i, '{', '{') {
            None => {
                lemma_subrange_shift(a, b, i, b.len() as int);
            },
            Some(rel) => {
                lemma_subrange_shift(a, b, i, rel);
                lemma_tag_at_shift(a, b, rel, "col."@);
                lemma_tag_at_shift(a, b, rel, "var."@);
                if tag_at(b, rel, "col."@) {
                    lemma_col_step_shift(grad, source, a, b, rel);
                    lemma_col_step_advances(grad, source, b, rel);
                    let next = col_step(grad, source, b, rel).1;
                    lemma_render_from_shift(grad, source, vars, a, b, next);
                } else if tag_at(b, rel, "var."@) {
                    lemma_find_pair_shift(a, b, rel + 6, '}', '}');
                    lemma_find_pair_bounds(b, rel + 6, '}', '}');
                    match find_pair(b, rel + 6, '}', '}') {
                        Some(end) => {
                            lemma_subrange_shift(a, b, rel + 6, end);
                            lemma_render_from_shift(grad, source, vars, a, b, end + 2);
                        },
                        None => {
                            lemma_subrange_shift(a, b, rel, b.len() as int);
                        },
                    }
                } else {
                    lemma_render_from_shift(grad, source, vars, a, b, rel + 2);
                }
            },
        }
    }
}

/// `find_pair` skips a stretch that holds no `x`.
proof fn lemma_find_pair_skip(s: Seq<char>, i: int, n: int, x: char, y: char)
    requires
        0 <= i <= n,
        forall|k: int| i <= k < n && k < s.len() ==> s[k] != x,
    ensures
        find_pair(s, i, x, y) == find_pair(s, n, x, y),
    decreases n - i,
{
    if i < n {
        if i + 2 <= s.len() {
            lemma_find_pair_skip(s, i + 1, n, x, y);
        }
    }
}

/// Plain text output of two texts is the first followed by the second.
proof fn lemma_out_text_add(a: Seq<char>, x: Seq<char>)
    ensures
        out_text(a + x) == then(out_text(a), out_text(x)),
{
    lemma_text_tokens_add(a, x);
    assert(out_text(a + x).tokens =~= then(out_text(a), out_text(x)).tokens);
}

/// Nothing before an output leaves it as it is.
proof fn lemma_then_empty_left(r: RenderOut)
    ensures
        then(out_text(Seq::empty()), r) == r,
{
    lemma_text_tokens_empty();
    assert(then(out_text(Seq::empty()), r).tokens =~= r.tokens);
}

/// A prefix without `{` renders as itself, ahead of the rest.
proof fn lemma_render_plain_prefix(
    grad: Seq<ColorModel>,
    source: ColorModel,
    vars: Map<Seq<char>, Seq<char>>,
    a: Seq<char>,
    b: Seq<char>,
)
    requires
        forall|k: int| 0 <= k < a.len() ==> a[k] != '{',
    ensures
        render_from(grad, source, vars, a + b, 0) == then(
            out_text(a),
            render_from(grad, source, vars, a + b, a.len() as int),
        ),
{
    let s = a + b;
    let n = a.len() as int;
    let rn = render_from(grad, source, vars, s, n);
    if n == 0 {
        assert(a =~= Seq::<char>::empty());
        lemma_then_empty_left(rn);
        return;
    }
    assert forall|k: int| 0 <= k < n && k < s.len() implies s[k] != '{' by {
        assert(s[k] == a[k]);
    }
    lemma_find_pair_skip(s, 0, n, '{', '{');
    lemma_find_pair_bounds(s, n, '{', '{');
    if n == s.len() {
        assert(s.subrange(0, s.len() as int) =~= a);
        lemma_text_tokens_empty();
        assert(then(out_text(a), rn).tokens =~= text_tokens(a));
        return;
    }
    match find_pair(s, n, '{', '{') {
        None => {
            assert(s.subrange(0, s.len() as int) =~= a + s.subrange(n, s.len() as int));
            lemma_out_text_add(a, s.subrange(n, s.len() as int));
        },
        Some(rel) => {
            assert(s.subrange(0, rel) =~= a + s.subrange(n, rel));
            lemma_out_text_add(a, s.subrange(n, rel));
            let ta = out_text(a);
            let bn = out_text(s.subrange(n, rel));
            if tag_at(s, rel, "col."@) {
                lemma_col_step_advances(grad, source, s, rel);
                let (step, next) = col_step(grad, source, s, rel);
                let r = render_from(grad, source, vars, s, next);
                lemma_then_assoc(ta, bn, step);
                lemma_then_assoc(ta, then(bn, step), r);
            } else if tag_at(s, rel, "var."@) {
                match find_pair(s, rel + 6, '}', '}') {
                    Some(end) => {
                        let step = var_out(vars, s.subrange(rel + 6, end));
                        let r = render_from(grad, source, vars, s, end + 2);
                        lemma_then_assoc(ta, bn, step);
                        lemma_then_assoc(ta, then(bn, step), r);
                    },
                    None => {
                        lemma_then_assoc(ta, bn, out_text(s.subrange(rel, s.len() as int)));
                    },
                }
            } else {
                let r = render_from(grad, source, vars, s, rel + 2);
                lemma_then_assoc(ta, bn, out_text("{{"@));
                lemma_then_assoc(ta, then(bn, out_text("{{"@)), r);
            }
        },
    }
}

/// Law: a template that starts with text holding no `{` renders as that
/// text followed by what the rest renders to, with the rest's counts.
pub proof fn law_render_plain_prefix(pal: &Palette, ctx: &RenderCtx, a: Seq<char>, b: Seq<char>)
    requires
        forall|k: int| 0 <= k < a.len() ==> a[k] != '{',
    ensures
        render(pal, ctx, a + b) == then(out_text(a), render(pal, ctx, b)),
{
    let g = pal.grad_model();
    let src = pal.source_model();
    let m = ctx.vars_map();
    lemma_render_plain_prefix(g, src, m, a, b);
    lemma_render_from_shift(g, src, m, a, b, 0);
}

/// Law: the `invert` modifier renders the complement in every format:
/// rendering a color with `invert` gives what rendering, without `invert`,
/// the color whose channels are the complement (and whose `hsl()` triples
/// are swapped) gives.
pub proof fn law_invert_is_complement(c: ColorModel, fmt: Seq<char>, m: Mods)
    ensures
        color_out(c, fmt, Mods { invert: true, ..m }) == color_out(
            (inverted(c.0), c.2, c.1),
            fmt,
            Mods { invert: false, ..m },
        ),
{
}

/// Law: the layout of an output file. With `m` the rendered template and
/// `h` the header without their trailing newlines, and `f` the footer
/// without its leading newlines: a non-empty footer follows a non-empty
/// template after one blank line whether or not there is a header; the
/// header, when there is one, comes first followed by one blank line; an
/// empty footer adds nothing.
pub proof fn law_assembled_layout(main: Seq<char>, header: Seq<char>, footer: Seq<char>)
    ensures
        ({
            let m = strip_trailing(main, '\n');
            let h = strip_trailing(header, '\n');
            let f = crate::text::strip_leading(footer, '\n');
            let r = assembled(main, header, footer);
            &&& (h.len() == 0 && m.len() > 0 && f.len() > 0) ==> r == m + "\n\n"@ + f
            &&& (h.len() > 0 && m.len() > 0 && f.len() > 0) ==> r == h + "\n\n"@ + m + "\n\n"@ + f
            &&& (h.len() == 0 && f.len() == 0) ==> r == m
            &&& (h.len() > 0 && f.len() == 0) ==> r == h + "\n\n"@ + m
            &&& (h.len() == 0 && m.len() == 0) ==> r == f
            &&& (h.len() > 0 && m.len() == 0 && f.len() > 0) ==> r == h + "\n\n"@ + "\n\n"@ + f
        }),
{
    let m = strip_trailing(main, '\n');
    let h = strip_trailing(header, '\n');
    let f = crate::text::strip_leading(footer, '\n');
    let r = assembled(main, header, footer);
    let e = Seq::<char>::empty();
    if h.len() == 0 && m.len() > 0 && f.len() > 0 {
        assert(r =~= m + "\n\n"@ + f);
    }
    if h.len() > 0 && m.len() > 0 && f.len() > 0 {
        assert(r =~= h + "\n\n"@ + m + "\n\n"@ + f);
    }
    if h.len() == 0 && f.len() == 0 {
        assert(r =~= e + m + e);
    }
    if h.len() > 0 && f.len() == 0 {
        assert(r =~= h + "\n\n"@ + m);
    }
    if h.len() == 0 && m.len() == 0 {
        assert(m =~= e);
        if f.len() > 0 {
            assert(r =~= e + e + (e + f));
        } else {
            assert(f =~= e);
            assert(r =~= e + e + e);
        }
    }
    if h.len() > 0 && m.len() == 0 && f.len() > 0 {
        assert(m =~= e);
        assert(r =~= h + "\n\n"@ + "\n\n"@ + f);
    }
}

/// Law: a boolean variable renders as its value, `true` or `false`; the two
/// values render differently.
pub proof fn law_boolean_value_text(b: bool)
    ensures
        value_text(VarValue::Boolean(b)) == Some(
            if b {
                "true"@
            } else {
                "false"@
            },
        ),
        value_text(VarValue::Boolean(true)) != value_text(VarValue::Boolean(false)),
{
    reveal_strlit("true");
    reveal_strlit("false");
    assert("true"@.len() != "false"@.len());
}

/// Resolving distinct variables maps each name to the text of its value.
proof fn lemma_resolved_map(vars: Seq<(String, VarValue)>, i: int)
    requires
        distinct_names(vars),
        0 <= i < vars.len(),
    ensures
        resolved_map(vars).contains_key(vars[i].0@),
        resolved_map(vars)[vars[i].0@] == value_text(vars[i].1)->0,
    decreases vars.len(),
{
    if i < vars.len() - 1 {
        let d = vars.drop_last();
        assert(distinct_names(d));
        assert(d[i] == vars[i]);
        lemma_resolved_map(d, i);
        assert(vars[i].0@ != vars[vars.len() - 1].0@);
    }
}

/// Law: a resolved configuration variable renders as the text of its value
/// (for a name without `}` or surrounding whitespace that is not itself a
/// `.rgb` reading).
pub proof fn law_config_var_placeholder(
    pal: &Palette,
    ctx: &RenderCtx,
    vars: Seq<(String, VarValue)>,
    i: int,
)
    requires
        distinct_names(vars),
        ctx.vars_map() == resolved_map(vars),
        0 <= i < vars.len(),
        vars[i].0@.len() > 0,
        trim(vars[i].0@) == vars[i].0@,
        forall|k: int| 0 <= k < vars[i].0@.len() ==> vars[i].0@[k] != '}',
        !(vars[i].0@.len() >= 4 && vars[i].0@.skip(vars[i].0@.len() - 4) == ".rgb"@),
    ensures
        render(pal, ctx, "{{var."@ + vars[i].0@ + "}}"@) == out_replaced(
            text_tokens(value_text(vars[i].1)->0),
        ),
{
    lemma_resolved_map(vars, i);
    law_var_placeholder(pal, ctx, vars[i].0@);
}

/// Law: a boolean configuration variable renders as `true` or `false`,
/// following its value.
pub proof fn law_boolean_var_placeholder(
    pal: &Palette,
    ctx: &RenderCtx,
    vars: Seq<(String, VarValue)>,
    i: int,
    b: bool,
)
    requires
        distinct_names(vars),
        ctx.vars_map() == resolved_map(vars),
        0 <= i < vars.len(),
        vars[i].1 == VarValue::Boolean(b),
        vars[i].0@.len() > 0,
        trim(vars[i].0@) == vars[i].0@,
        forall|k: int| 0 <= k < vars[i].0@.len() ==> vars[i].0@[k] != '}',
        !(vars[i].0@.len() >= 4 && vars[i].0@.skip(vars[i].0@.len() - 4) == ".rgb"@),
    ensures
        render(pal, ctx, "{{var."@ + vars[i].0@ + "}}"@) == out_replaced(
            text_tokens(
                if b {
                    "true"@
                } else {
                    "false"@
                },
            ),
        ),
{
    law_config_var_placeholder(pal, ctx, vars, i);
    law_boolean_value_text(b);
}

/// Law: each gradient step `i` (from 1, up to 99) is exported under
/// `BNCHROMA_C` followed by exactly two decimal digits that read as `i`,
/// then `_HEX` (its `#RRGGBB`) or `_RGB` (its `r, g, b`).
pub proof fn law_env_step_names(grad: Seq<ColorModel>, source: Rgb, i: int)
    requires
        0 <= i < grad.len(),
        i + 1 <= 99,
    ensures
        ({
            let hx = env_entry(grad, source, 2 + 2 * i);
            let rg = env_entry(grad, source, 3 + 2 * i);
            &&& hx.0.len() == 16 && rg.0.len() == 16
            &&& hx.0.take(10) == "BNCHROMA_C"@ && rg.0.take(10) == "BNCHROMA_C"@
            &&& '0' <= hx.0[10] <= '9' && '0' <= hx.0[11] <= '9'
            &&& (hx.0[10] as int - 48) * 10 + (hx.0[11] as int - 48) == i + 1
            &&& rg.0.subrange(10, 12) == hx.0.subrange(10, 12)
            &&& hx.0.skip(12) == "_HEX"@ && rg.0.skip(12) == "_RGB"@
            &&& hx.1 == hex_text(grad[i].0, false)
            &&& rg.1 == rgb_text(grad[i].0, true)
        }),
{
    reveal_strlit("BNCHROMA_C");
    reveal_strlit("_HEX");
    reveal_strlit("_RGB");
    let n = (i + 1) as nat;
    assert((2 + 2 * i - 2) / 2 == i && (2 + 2 * i - 2) % 2 == 0);
    assert((3 + 2 * i - 2) / 2 == i && (3 + 2 * i - 2) % 2 == 1);
    let d = dec_pad2(n);
    if n >= 10 {
        assert(dec(n / 10) == seq![crate::text::digit_char(n / 10)]);
        assert(d =~= seq![crate::text::digit_char(n / 10), crate::text::digit_char(n % 10)]);
        assert((n / 10) * 10 + n % 10 == n);
    }
    assert(d.len() == 2);
    let hx = env_entry(grad, source, 2 + 2 * i);
    let rg = env_entry(grad, source, 3 + 2 * i);
    assert(hx.0 == "BNCHROMA_C"@ + d + "_HEX"@);
    assert(rg.0 == "BNCHROMA_C"@ + d + "_RGB"@);
    assert(hx.0.take(10) =~= "BNCHROMA_C"@);
    assert(rg.0.take(10) =~= "BNCHROMA_C"@);
    assert(hx.0.skip(12) =~= "_HEX"@);
    assert(rg.0.skip(12) =~= "_RGB"@);
    assert(hx.0[10] == d[0] && hx.0[11] == d[1]);
    assert(rg.0.subrange(10, 12) =~= hx.0.subrange(10, 12));
}

} // verus!
