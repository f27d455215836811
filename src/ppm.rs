use vstd::prelude::*;

verus! {

/// ASCII white space: blank, tab, line feed, vertical tab, form feed, carriage return.
pub open spec fn is_space(b: u8) -> bool {
    b == 32 || b == 9 || b == 10 || b == 11 || b == 12 || b == 13
}

/// An ASCII decimal digit.
pub open spec fn is_digit(b: u8) -> bool {
    48 <= b <= 57
}

/// The decimal representation of `n`, without leading zeros.
pub open spec fn digits(n: nat) -> Seq<u8>
    decreases n,
{
    if n < 10 {
        seq![(48 + n) as u8]
    } else {
        digits(n / 10) + seq![(48 + n % 10) as u8]
    }
}

/// The number that a string of decimal digits spells.
pub open spec fn value(t: Seq<u8>) -> nat
    decreases t.len(),
{
    if t.len() == 0 {
        0
    } else {
        value(t.drop_last()) * 10 + (t.last() - 48) as nat
    }
}

/// A token that reads as a number that fits in `usize`.
pub open spec fn is_number(t: Seq<u8>) -> bool {
    &&& t.len() > 0
    &&& forall|i: int| 0 <= i < t.len() ==> is_digit(#[trigger] t[i])
    &&& value(t) <= usize::MAX
}

/// The maximal runs of non-space bytes of `s`, in order.
pub open spec fn tokens(s: Seq<u8>) -> Seq<Seq<u8>>
    decreases s.len(),
{
    if s.len() == 0 {
        seq![]
    } else {
        let rest = tokens(s.drop_first());
        if is_space(s[0]) {
            rest
        } else if s.len() > 1 && !is_space(s[1]) {
            seq![seq![s[0]] + rest[0]] + rest.drop_first()
        } else {
            seq![seq![s[0]]] + rest
        }
    }
}

/// The digits of `n` are digits, at least one, and spell `n`.
pub proof fn lemma_digits(n: nat)
    ensures
        digits(n).len() > 0,
        forall|i: int| 0 <= i < digits(n).len() ==> is_digit(#[trigger] digits(n)[i]),
        value(digits(n)) == n,
    decreases n,
{
    if n >= 10 {
        lemma_digits(n / 10);
        let d = digits(n);
        assert(d.drop_last() =~= digits(n / 10));
        assert(d.last() == (48 + n % 10) as u8);
        assert(n == (n / 10) * 10 + n % 10) by (nonlinear_arith);
        assert(value(d) == value(d.drop_last()) * 10 + (d.last() - 48) as nat);
        assert((d.last() - 48) as nat == n % 10);
        assert forall|i: int| 0 <= i < d.len() implies is_digit(#[trigger] d[i]) by {
            if i < d.len() - 1 {
                assert(d[i] == digits(n / 10)[i]);
            }
        }
    } else {
        let d = digits(n);
        assert(d.drop_last() =~= Seq::<u8>::empty());
        assert(value(d) == value(d.drop_last()) * 10 + (d.last() - 48) as nat);
        assert(value(Seq::<u8>::empty()) == 0);
    }
}

/// A string of digits spells at least what its prefixes spell.
proof fn lemma_value_prefix(t: Seq<u8>, k: int)
    requires
        0 <= k <= t.len(),
        forall|i: int| 0 <= i < t.len() ==> is_digit(#[trigger] t[i]),
    ensures
        value(t.subrange(0, k)) <= value(t),
    decreases t.len() - k,
{
    if k < t.len() {
        let p = t.subrange(0, k + 1);
        assert(p.drop_last() =~= t.subrange(0, k));
        assert(is_digit(t[k]));
        lemma_value_prefix(t, k + 1);
    } else {
        assert(t.subrange(0, k) =~= t);
    }
}

/// Leading white space does not change the tokens.
proof fn lemma_tokens_space(s: Seq<u8>, i: int)
    requires
        0 <= i < s.len(),
        is_space(s[i]),
    ensures
        tokens(s.skip(i)) == tokens(s.skip(i + 1)),
{
    assert(s.skip(i).drop_first() =~= s.skip(i + 1));
}

/// A run of non-space bytes from `i` up to white space or the end at `j` is the
/// first token from `i`.
proof fn lemma_tokens_word(s: Seq<u8>, i: int, j: int)
    requires
        0 <= i < j <= s.len(),
        forall|k: int| i <= k < j ==> !is_space(#[trigger] s[k]),
        j == s.len() || is_space(s[j]),
    ensures
        tokens(s.skip(i)) == seq![s.subrange(i, j)] + tokens(s.skip(j)),
    decreases j - i,
{
    assert(s.skip(i).drop_first() =~= s.skip(i + 1));
    assert(!is_space(s[i]));
    if i + 1 == j {
        assert(s.subrange(i, j) =~= seq![s[i]]);
    } else {
        assert(!is_space(s[i + 1]));
        lemma_tokens_word(s, i + 1, j);
        assert(s.subrange(i, j) =~= seq![s[i]] + s.subrange(i + 1, j));
        assert((seq![s.subrange(i + 1, j)] + tokens(s.skip(j))).drop_first() =~= tokens(
            s.skip(j),
        ));
    }
}

/// Tokens of a string that starts with a non-space byte: there is one.
proof fn lemma_tokens_nonempty(s: Seq<u8>)
    requires
        s.len() > 0,
        !is_space(s[0]),
    ensures
        tokens(s).len() > 0,
{
}

/// Tokens of a concatenation split where the first part ends in white space.
pub proof fn lemma_tokens_concat(a: Seq<u8>, b: Seq<u8>)
    requires
        a.len() == 0 || is_space(a.last()),
    ensures
        tokens(a + b) == tokens(a) + tokens(b),
    decreases a.len(),
{
    if a.len() == 0 {
        assert(a + b =~= b);
    } else {
        let a1 = a.drop_first();
        assert((a + b).drop_first() =~= a1 + b);
        if a.len() > 1 {
            assert(a1.last() == a.last());
        }
        lemma_tokens_concat(a1, b);
        if is_space(a[0]) {
        } else if a.len() > 1 && !is_space(a[1]) {
            assert((a + b)[1] == a[1]);
            lemma_tokens_nonempty(a1);
            assert((tokens(a1) + tokens(b))[0] == tokens(a1)[0]);
            assert((tokens(a1) + tokens(b)).drop_first() =~= tokens(a1).drop_first() + tokens(b));
            assert(tokens(a) =~= seq![seq![a[0]] + tokens(a1)[0]] + tokens(a1).drop_first());
        } else {
            assert(a.len() > 1);
            assert((a + b)[1] == a[1]);
        }
    }
}

/// A word followed by one white space byte is one token.
pub proof fn lemma_tokens_single(t: Seq<u8>, c: u8)
    requires
        t.len() > 0,
        forall|i: int| 0 <= i < t.len() ==> !is_space(#[trigger] t[i]),
        is_space(c),
    ensures
        tokens(t.push(c)) == seq![t],
{
    let s = t.push(c);
    assert forall|k: int| 0 <= k < t.len() implies !is_space(#[trigger] s[k]) by {
        assert(s[k] == t[k]);
    }
    lemma_tokens_word(s, 0, t.len() as int);
    lemma_tokens_space(s, t.len() as int);
    assert(s.skip(0) =~= s);
    assert(s.subrange(0, t.len() as int) =~= t);
    assert(s.skip(t.len() as int + 1).len() == 0);
}

/// A displayable color: three 8-bit channels.
#[derive(Clone, Copy, Debug, PartialEq, Eq, Structural)]
pub struct Pixel {
    pub r: u8,
    pub g: u8,
    pub b: u8,
}

/// A number in decimal followed by one blank.
pub open spec fn word(n: nat) -> Seq<u8> {
    digits(n).push(32)
}

/// One pixel as written: `"r g b "`.
pub open spec fn pixel_text(p: Pixel) -> Seq<u8> {
    word(p.r as nat) + word(p.g as nat) + word(p.b as nat)
}

/// Pixels written one after the other.
pub open spec fn pixels_text(ps: Seq<Pixel>) -> Seq<u8>
    decreases ps.len(),
{
    if ps.len() == 0 {
        seq![]
    } else {
        pixels_text(ps.drop_last()) + pixel_text(ps.last())
    }
}

/// One image row as written: its pixels, then a line feed.
pub open spec fn row_text(ps: Seq<Pixel>) -> Seq<u8> {
    pixels_text(ps).push(10)
}

/// Rows written one after the other, in order.
pub open spec fn rows_text(rows: Seq<Seq<Pixel>>) -> Seq<u8>
    decreases rows.len(),
{
    if rows.len() == 0 {
        seq![]
    } else {
        rows_text(rows.drop_last()) + row_text(rows.last())
    }
}

/// The header of a plain PPM image of `w` by `h` pixels with 255 levels:
/// `"P3\n<w> <h>\n255\n"`.
pub open spec fn header_text(w: nat, h: nat) -> Seq<u8> {
    seq![80u8, 51u8, 10u8] + digits(w).push(32) + digits(h).push(10) + seq![50u8, 53u8, 53u8, 10u8]
}

/// A whole image: the header, then the rows from top to bottom.
pub open spec fn image_text(w: nat, h: nat, rows: Seq<Seq<Pixel>>) -> Seq<u8> {
    header_text(w, h) + rows_text(rows)
}

/// The rows of a pixel grid as sequences.
pub open spec fn grid_view(rows: Seq<Vec<Pixel>>) -> Seq<Seq<Pixel>> {
    rows.map_values(|r: Vec<Pixel>| r@)
}

/// Appends `n` in decimal.
fn push_decimal(out: &mut Vec<u8>, n: usize)
    ensures
        final(out)@ == old(out)@ + digits(n as nat),
    decreases n,
{
    if n >= 10 {
        push_decimal(out, n / 10);
    }
    let d: u8 = (n % 10) as u8;
    out.push(48 + d);
    assert(final(out)@ =~= old(out)@ + digits(n as nat));
}

/// Appends one pixel: its three channels in decimal, each followed by a blank.
pub fn write_pixel(out: &mut Vec<u8>, p: Pixel)
    ensures
        final(out)@ == old(out)@ + pixel_text(p),
{
    push_decimal(out, p.r as usize);
    out.push(32);
    push_decimal(out, p.g as usize);
    out.push(32);
    push_decimal(out, p.b as usize);
    out.push(32);
    assert(final(out)@ =~= old(out)@ + pixel_text(p));
}

/// Appends one row of pixels and a line feed.
pub fn write_row(out: &mut Vec<u8>, row: &[Pixel])
    ensures
        final(out)@ == old(out)@ + row_text(row@),
{
    let ghost start = out@;
    let mut i: usize = 0;
    while i < row.len()
        invariant
            i <= row@.len(),
            out@ == start + pixels_text(row@.subrange(0, i as int)),
        decreases row@.len() - i,
    {
        write_pixel(out, row[i]);
        assert(row@.subrange(0, i + 1).drop_last() =~= row@.subrange(0, i as int));
        assert(out@ =~= start + pixels_text(row@.subrange(0, i + 1)));
        i = i + 1;
    }
    assert(row@.subrange(0, i as int) =~= row@);
    out.push(10);
    assert(out@ =~= start + row_text(row@));
}

/// The header of a plain PPM image of `w` by `h` pixels with 255 levels.
pub fn ppm_header(w: usize, h: usize) -> (r: Vec<u8>)
    ensures
        r@ == header_text(w as nat, h as nat),
{
    let mut out: Vec<u8> = Vec::new();
    out.push(80);
    out.push(51);
    out.push(10);
    push_decimal(&mut out, w);
    out.push(32);
    push_decimal(&mut out, h);
    out.push(10);
    out.push(50);
    out.push(53);
    out.push(53);
    out.push(10);
    assert(out@ =~= header_text(w as nat, h as nat));
    out
}

/// A whole plain PPM image: the header for `w` by `h` pixels, then `rows`
/// from top to bottom.
pub fn encode_ppm(w: usize, h: usize, rows: &Vec<Vec<Pixel>>) -> (r: Vec<u8>)
    ensures
        r@ == image_text(w as nat, h as nat, grid_view(rows@)),
{
    let mut out = ppm_header(w, h);
    let ghost start = out@;
    let mut i: usize = 0;
    while i < rows.len()
        invariant
            i <= rows@.len(),
            out@ == start + rows_text(grid_view(rows@).subrange(0, i as int)),
        decreases rows@.len() - i,
    {
        write_row(&mut out, rows[i].as_slice());
        assert(grid_view(rows@).subrange(0, i + 1).drop_last() =~= grid_view(rows@).subrange(
            0,
            i as int,
        ));
        assert(out@ =~= start + rows_text(grid_view(rows@).subrange(0, i + 1)));
        i = i + 1;
    }
    assert(grid_view(rows@).subrange(0, i as int) =~= grid_view(rows@));
    out
}

/// An image as read from a plain PPM file: its size, its number of levels, and
/// its channel values, three per pixel, row by row from the top.
pub struct PpmImage {
    pub wth: usize,
    pub hgt: usize,
    pub max: usize,
    pub samples: Vec<usize>,
}

/// Why a plain PPM text could not be read.
#[derive(Clone, Copy, Debug, PartialEq, Eq, Structural)]
pub enum PpmError {
    /// Fewer than four tokens, or a width, height or level count that is not a number
    Header,
    /// Fewer channel values than the size calls for, or one that is not a number
    Body,
}

/// The first token (the format tag, which is not checked) is followed by three numbers.
pub open spec fn header_ok(toks: Seq<Seq<u8>>) -> bool {
    toks.len() >= 4 && is_number(toks[1]) && is_number(toks[2]) && is_number(toks[3])
}

/// How many channel values the header calls for.
pub open spec fn body_len(toks: Seq<Seq<u8>>) -> nat {
    3 * value(toks[1]) * value(toks[2])
}

/// The channel values are there and are numbers; tokens past them are ignored.
pub open spec fn body_ok(toks: Seq<Seq<u8>>) -> bool {
    &&& toks.len() >= 4 + body_len(toks)
    &&& forall|k: int| 4 <= k < 4 + body_len(toks) ==> is_number(#[trigger] toks[k])
}

/// White space, as an executable test.
fn space(b: u8) -> (r: bool)
    ensures
        r == is_space(b),
{
    b == 32 || b == 9 || b == 10 || b == 11 || b == 12 || b == 13
}

/// Locates the first token at or after `i`: the returned bounds are the end of
/// the text when there is none.
fn next_token(s: &[u8], i: usize) -> (r: (usize, usize))
    requires
        i <= s@.len(),
    ensures
        i <= r.0 <= r.1 <= s@.len(),
        r.0 == s@.len() ==> tokens(s@.skip(i as int)) == Seq::<Seq<u8>>::empty(),
        r.0 < s@.len() ==> r.0 < r.1 && tokens(s@.skip(i as int)) == seq![
            s@.subrange(r.0 as int, r.1 as int),
        ] + tokens(s@.skip(r.1 as int)),
{
    let mut p = i;
    while p < s.len() && space(s[p])
        invariant
            i <= p <= s@.len(),
            tokens(s@.skip(i as int)) == tokens(s@.skip(p as int)),
        decreases s@.len() - p,
    {
        proof {
            lemma_tokens_space(s@, p as int);
        }
        p = p + 1;
    }
    if p == s.len() {
        assert(s@.skip(p as int) =~= Seq::<u8>::empty());
        return (p, p);
    }
    let mut q = p + 1;
    while q < s.len() && !space(s[q])
        invariant
            p < q <= s@.len(),
            forall|k: int| p <= k < q ==> !is_space(#[trigger] s@[k]),
        decreases s@.len() - q,
    {
        q = q + 1;
    }
    proof {
        lemma_tokens_word(s@, p as int, q as int);
    }
    (p, q)
}

/// Reads `s[a..b]` as a number that fits in `usize`.
fn parse_number(s: &[u8], a: usize, b: usize) -> (r: Option<usize>)
    requires
        a <= b <= s@.len(),
    ensures
        r == (if is_number(s@.subrange(a as int, b as int)) {
            Some(value(s@.subrange(a as int, b as int)) as usize)
        } else {
            None::<usize>
        }),
{
    let ghost t = s@.subrange(a as int, b as int);
    if a == b {
        return None;
    }
    let mut acc: usize = 0;
    let mut p = a;
    assert(t.subrange(0, 0) =~= Seq::<u8>::empty());
    while p < b
        invariant
            a <= p <= b <= s@.len(),
            t == s@.subrange(a as int, b as int),
            forall|k: int| 0 <= k < p - a ==> is_digit(#[trigger] t[k]),
            acc == value(t.subrange(0, p - a)),
        decreases b - p,
    {
        let c = s[p];
        if c < 48 || c > 57 {
            assert(t[p - a] == c);
            return None;
        }
        let d: usize = (c - 48) as usize;
        assert(t.subrange(0, p - a + 1).drop_last() =~= t.subrange(0, p - a));
        assert(t[p - a] == c);
        match acc.checked_mul(10) {
            None => {
                proof {
                    if forall|k: int| 0 <= k < t.len() ==> is_digit(#[trigger] t[k]) {
                        lemma_value_prefix(t, p - a + 1);
                    }
                }
                return None;
            },
            Some(x) => match x.checked_add(d) {
                None => {
                    proof {
                        if forall|k: int| 0 <= k < t.len() ==> is_digit(#[trigger] t[k]) {
                            lemma_value_prefix(t, p - a + 1);
                        }
                    }
                    return None;
                },
                Some(y) => {
                    acc = y;
                },
            },
        }
        p = p + 1;
    }
    assert(t.subrange(0, p - a) =~= t);
    Some(acc)
}

/// Reads a plain PPM image: a format tag (not checked), the width, the height,
/// the number of levels, then three channel values per pixel, all separated by
/// white space. Whatever follows the last value is ignored.
pub fn parse_ppm(s: &[u8]) -> (r: Result<PpmImage, PpmError>)
    ensures
        ({
            let toks = tokens(s@);
            match r {
                Ok(img) => {
                    &&& header_ok(toks)
                    &&& body_ok(toks)
                    &&& img.wth == value(toks[1])
                    &&& img.hgt == value(toks[2])
                    &&& img.max == value(toks[3])
                    &&& img.samples@.len() == body_len(toks)
                    &&& forall|k: int|
                        0 <= k < body_len(toks) ==> #[trigger] img.samples@[k] == value(toks[4 + k])
                },
                Err(PpmError::Header) => !header_ok(toks),
                Err(PpmError::Body) => header_ok(toks) && !body_ok(toks),
            }
        }),
{
    let ghost toks = tokens(s@);
    assert(s@.skip(0) =~= s@);
    // the format tag
    let (a, b) = next_token(s, 0);
    if a == s.len() {
        return Err(PpmError::Header);
    }
    let mut head: Vec<usize> = Vec::new();
    let mut pos = b;
    while head.len() < 3
        invariant
            head@.len() <= 3,
            pos <= s@.len(),
            toks == tokens(s@),
            toks.len() >= 1 + head@.len(),
            tokens(s@.skip(pos as int)) == toks.skip(1 + head@.len() as int),
            forall|k: int| 0 <= k < head@.len() ==> is_number(#[trigger] toks[1 + k]),
            forall|k: int| 0 <= k < head@.len() ==> #[trigger] head@[k] == value(toks[1 + k]),
        decreases 3 - head@.len(),
    {
        let ghost n: int = head@.len() as int;
        let (a, b) = next_token(s, pos);
        if a == s.len() {
            assert(toks.skip(1 + n).len() == 0);
            return Err(PpmError::Header);
        }
        assert(toks.skip(1 + n) == seq![s@.subrange(a as int, b as int)] + tokens(s@.skip(b as int)));
        assert(toks.skip(1 + n).len() >= 1);
        assert(toks.skip(1 + n)[0] == s@.subrange(a as int, b as int));
        assert(toks.skip(1 + n)[0] == toks[1 + n]);
        assert(toks.skip(1 + n).drop_first() =~= toks.skip(1 + n + 1));
        match parse_number(s, a, b) {
            None => {
                return Err(PpmError::Header);
            },
            Some(v) => {
                head.push(v);
            },
        }
        pos = b;
    }
    let wth = head[0];
    let hgt = head[1];
    let max = head[2];
    assert(header_ok(toks));
    let ghost n = body_len(toks);
    let mut samples: Vec<usize> = Vec::new();
    proof {
        lemma_tokens_len(s@);
    }
    let total = match wth.checked_mul(hgt) {
        None => None,
        Some(x) => x.checked_mul(3),
    };
    let total = match total {
        None => {
            assert(n == 3 * (wth * hgt)) by (nonlinear_arith)
                requires
                    n == 3 * wth * hgt,
            ;
            assert(n > usize::MAX) by (nonlinear_arith)
                requires
                    n == 3 * (wth * hgt),
                    wth * hgt > usize::MAX || 3 * (wth * hgt) > usize::MAX,
            ;
            return Err(PpmError::Body);
        },
        Some(t) => t,
    };
    assert(total == n) by (nonlinear_arith)
        requires
            n == 3 * wth * hgt,
            total == (wth * hgt) * 3,
    ;
    while samples.len() < total
        invariant
            samples@.len() <= total,
            total == n,
            n == body_len(toks),
            header_ok(toks),
            pos <= s@.len(),
            toks == tokens(s@),
            toks.len() >= 4 + samples@.len(),
            tokens(s@.skip(pos as int)) == toks.skip(4 + samples@.len() as int),
            forall|k: int| 0 <= k < samples@.len() ==> is_number(#[trigger] toks[4 + k]),
            forall|k: int| 0 <= k < samples@.len() ==> #[trigger] samples@[k] == value(toks[4 + k]),
        decreases total - samples@.len(),
    {
        let ghost c: int = samples@.len() as int;
        let (a, b) = next_token(s, pos);
        if a == s.len() {
            assert(toks.skip(4 + c).len() == 0);
            assert(toks.len() == 4 + c);
            assert(c < n);
            assert(!body_ok(toks));
            return Err(PpmError::Body);
        }
        assert(toks.skip(4 + c) == seq![s@.subrange(a as int, b as int)] + tokens(s@.skip(b as int)));
        assert(toks.skip(4 + c).len() >= 1);
        assert(toks.skip(4 + c)[0] == s@.subrange(a as int, b as int));
        assert(toks.skip(4 + c)[0] == toks[4 + c]);
        assert(toks.skip(4 + c).drop_first() =~= toks.skip(4 + c + 1));
        match parse_number(s, a, b) {
            None => {
                return Err(PpmError::Body);
            },
            Some(v) => {
                samples.push(v);
            },
        }
        pos = b;
    }
    assert(body_ok(toks)) by {
        assert forall|k: int| 4 <= k < 4 + body_len(toks) implies is_number(#[trigger] toks[k]) by {
            assert(toks[4 + (k - 4)] == toks[k]);
        }
    }
    Ok(PpmImage { wth, hgt, max, samples })
}

/// The channel values of pixels, three per pixel, in order.
pub open spec fn pixel_channels(ps: Seq<Pixel>) -> Seq<nat>
    decreases ps.len(),
{
    if ps.len() == 0 {
        seq![]
    } else {
        let p = ps.last();
        pixel_channels(ps.drop_last()) + seq![p.r as nat, p.g as nat, p.b as nat]
    }
}

/// The channel values of a grid, row by row from the top.
pub open spec fn channels(rows: Seq<Seq<Pixel>>) -> Seq<nat>
    decreases rows.len(),
{
    if rows.len() == 0 {
        seq![]
    } else {
        channels(rows.drop_last()) + pixel_channels(rows.last())
    }
}

/// Each number in decimal.
pub open spec fn spell(c: Seq<nat>) -> Seq<Seq<u8>> {
    c.map_values(|v: nat| digits(v))
}

/// The tokens of the header: the tag `P3`, the width, the height, and `255`.
pub open spec fn header_tokens(w: nat, h: nat) -> Seq<Seq<u8>> {
    seq![seq![80u8, 51u8], digits(w), digits(h), seq![50u8, 53u8, 53u8]]
}

proof fn lemma_digits_no_space(n: nat)
    ensures
        digits(n).len() > 0,
        forall|i: int| 0 <= i < digits(n).len() ==> !is_space(#[trigger] digits(n)[i]),
{
    lemma_digits(n);
    assert forall|i: int| 0 <= i < digits(n).len() implies !is_space(#[trigger] digits(n)[i]) by {
        assert(is_digit(digits(n)[i]));
    }
}

proof fn lemma_word_tokens(n: nat)
    ensures
        tokens(word(n)) == seq![digits(n)],
{
    lemma_digits_no_space(n);
    lemma_tokens_single(digits(n), 32);
}

proof fn lemma_pixel_tokens(p: Pixel)
    ensures
        tokens(pixel_text(p)) == seq![digits(p.r as nat), digits(p.g as nat), digits(p.b as nat)],
        pixel_text(p).len() > 0,
        pixel_text(p).last() == 32,
{
    let (a, b, c) = (word(p.r as nat), word(p.g as nat), word(p.b as nat));
    lemma_word_tokens(p.r as nat);
    lemma_word_tokens(p.g as nat);
    lemma_word_tokens(p.b as nat);
    lemma_tokens_concat(a, b);
    assert((a + b).last() == 32);
    lemma_tokens_concat(a + b, c);
    assert(tokens(pixel_text(p)) =~= seq![
        digits(p.r as nat),
        digits(p.g as nat),
        digits(p.b as nat),
    ]);
}

proof fn lemma_pixels_tokens(ps: Seq<Pixel>)
    ensures
        tokens(pixels_text(ps)) == spell(pixel_channels(ps)),
        pixels_text(ps).len() == 0 || pixels_text(ps).last() == 32,
    decreases ps.len(),
{
    if ps.len() > 0 {
        let p = ps.last();
        lemma_pixels_tokens(ps.drop_last());
        lemma_pixel_tokens(p);
        lemma_tokens_concat(pixels_text(ps.drop_last()), pixel_text(p));
        assert(spell(pixel_channels(ps)) =~= spell(pixel_channels(ps.drop_last())) + seq![
            digits(p.r as nat),
            digits(p.g as nat),
            digits(p.b as nat),
        ]);
    } else {
        assert(spell(pixel_channels(ps)) =~= Seq::<Seq<u8>>::empty());
    }
}

proof fn lemma_rows_tokens(rows: Seq<Seq<Pixel>>)
    ensures
        tokens(rows_text(rows)) == spell(channels(rows)),
        rows_text(rows).len() == 0 || is_space(rows_text(rows).last()),
    decreases rows.len(),
{
    if rows.len() > 0 {
        let ps = rows.last();
        lemma_rows_tokens(rows.drop_last());
        lemma_pixels_tokens(ps);
        lemma_tokens_concat(pixels_text(ps), seq![10u8]);
        assert(pixels_text(ps).push(10) =~= pixels_text(ps) + seq![10u8]);
        assert(seq![10u8].drop_first() =~= Seq::<u8>::empty());
        assert(tokens(Seq::<u8>::empty()) =~= Seq::<Seq<u8>>::empty());
        assert(is_space(seq![10u8][0]));
        assert(tokens(seq![10u8]) == tokens(seq![10u8].drop_first()));
        assert(tokens(seq![10u8]) =~= Seq::<Seq<u8>>::empty());
        lemma_tokens_concat(rows_text(rows.drop_last()), row_text(ps));
        assert(spell(channels(rows)) =~= spell(channels(rows.drop_last())) + spell(
            pixel_channels(ps),
        ));
        assert(tokens(row_text(ps)) =~= tokens(pixels_text(ps)));
    } else {
        assert(spell(channels(rows)) =~= Seq::<Seq<u8>>::empty());
    }
}

proof fn lemma_header_tokens(w: nat, h: nat)
    ensures
        tokens(header_text(w, h)) == header_tokens(w, h),
        is_space(header_text(w, h).last()),
{
    let tag = seq![80u8, 51u8, 10u8];
    let dw = digits(w).push(32);
    let dh = digits(h).push(10);
    let lv = seq![50u8, 53u8, 53u8, 10u8];
    assert(tag =~= seq![80u8, 51u8].push(10));
    lemma_tokens_single(seq![80u8, 51u8], 10);
    lemma_digits_no_space(w);
    lemma_tokens_single(digits(w), 32);
    lemma_digits_no_space(h);
    lemma_tokens_single(digits(h), 10);
    assert(lv =~= seq![50u8, 53u8, 53u8].push(10));
    lemma_tokens_single(seq![50u8, 53u8, 53u8], 10);
    lemma_tokens_concat(tag, dw);
    lemma_tokens_concat(tag + dw, dh);
    lemma_tokens_concat(tag + dw + dh, lv);
    assert(tokens(header_text(w, h)) =~= header_tokens(w, h));
}

/// The channels of a grid of `h` rows of `w` pixels: `3 * w * h` values, none above 255.
proof fn lemma_channels_shape(rows: Seq<Seq<Pixel>>, w: nat)
    requires
        forall|i: int| 0 <= i < rows.len() ==> (#[trigger] rows[i]).len() == w,
    ensures
        channels(rows).len() == 3 * w * rows.len(),
        forall|k: int| 0 <= k < channels(rows).len() ==> #[trigger] channels(rows)[k] <= 255,
    decreases rows.len(),
{
    if rows.len() > 0 {
        let init = rows.drop_last();
        assert forall|i: int| 0 <= i < init.len() implies (#[trigger] init[i]).len() == w by {
            assert(init[i] == rows[i]);
        }
        lemma_channels_shape(init, w);
        lemma_pixel_channels_shape(rows.last());
        assert(rows.last() == rows[rows.len() - 1]);
        assert(3 * w * init.len() + 3 * w == 3 * w * rows.len()) by (nonlinear_arith)
            requires
                init.len() + 1 == rows.len(),
        ;
        let c = channels(rows);
        assert forall|k: int| 0 <= k < c.len() implies #[trigger] c[k] <= 255 by {
            if k < channels(init).len() {
                assert(c[k] == channels(init)[k]);
            } else {
                assert(c[k] == pixel_channels(rows.last())[k - channels(init).len()]);
            }
        }
    }
}

proof fn lemma_pixel_channels_shape(ps: Seq<Pixel>)
    ensures
        pixel_channels(ps).len() == 3 * ps.len(),
        forall|k: int|
            0 <= k < pixel_channels(ps).len() ==> #[trigger] pixel_channels(ps)[k] <= 255,
    decreases ps.len(),
{
    if ps.len() > 0 {
        lemma_pixel_channels_shape(ps.drop_last());
        let c = pixel_channels(ps);
        let i = pixel_channels(ps.drop_last());
        assert forall|k: int| 0 <= k < c.len() implies #[trigger] c[k] <= 255 by {
            if k < i.len() {
                assert(c[k] == i[k]);
            }
        }
    }
}

/// Writing an image and reading it back gives the same image: whatever grid of
/// `h` rows of `w` pixels is written, the text read back has a well-formed
/// header that gives `w`, `h` and 255 levels, and its channel values are those
/// of the grid, row by row from the top.
pub proof fn lemma_ppm_round_trip(w: usize, h: usize, rows: Seq<Seq<Pixel>>)
    requires
        rows.len() == h,
        forall|i: int| 0 <= i < rows.len() ==> (#[trigger] rows[i]).len() == w,
    ensures
        ({
            let toks = tokens(image_text(w as nat, h as nat, rows));
            &&& header_ok(toks)
            &&& body_ok(toks)
            &&& value(toks[1]) == w
            &&& value(toks[2]) == h
            &&& value(toks[3]) == 255
            &&& body_len(toks) == channels(rows).len()
            &&& forall|k: int|
                0 <= k < channels(rows).len() ==> #[trigger] value(toks[4 + k]) == channels(rows)[k]
        }),
{
    let toks = tokens(image_text(w as nat, h as nat, rows));
    let c = channels(rows);
    lemma_header_tokens(w as nat, h as nat);
    lemma_rows_tokens(rows);
    lemma_tokens_concat(header_text(w as nat, h as nat), rows_text(rows));
    lemma_channels_shape(rows, w as nat);
    assert(toks == header_tokens(w as nat, h as nat) + spell(c));
    lemma_digits(w as nat);
    lemma_digits(h as nat);
    lemma_digits(255);
    let lv = seq![50u8, 53u8, 53u8];
    assert(digits(255) =~= lv) by {
        assert(digits(25) =~= seq![50u8, 53u8]) by {
            assert(digits(2) =~= seq![50u8]);
        }
    }
    assert(toks[1] == digits(w as nat));
    assert(toks[2] == digits(h as nat));
    assert(toks[3] == lv);
    assert forall|i: int| 0 <= i < lv.len() implies is_digit(#[trigger] lv[i]) by {
        assert(lv[i] == digits(255)[i]);
    }
    assert(header_ok(toks));
    assert(body_len(toks) == c.len());
    assert forall|k: int| 0 <= k < c.len() implies #[trigger] value(toks[4 + k]) == c[k] && is_number(
        toks[4 + k],
    ) by {
        assert(toks[4 + k] == digits(c[k]));
        lemma_digits(c[k]);
    }
    assert(body_ok(toks)) by {
        assert forall|k: int| 4 <= k < 4 + body_len(toks) implies is_number(#[trigger] toks[k]) by {
            assert(value(toks[4 + (k - 4)]) == c[k - 4]);
        }
    }
}

/// There are no more tokens than bytes.
proof fn lemma_tokens_len(s: Seq<u8>)
    ensures
        tokens(s).len() <= s.len(),
    decreases s.len(),
{
    if s.len() > 0 {
        lemma_tokens_len(s.drop_first());
    }
}

} // verus!
