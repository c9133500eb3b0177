//! The row-token decompressor: turns one row's opcode stream into RGBA pixels.
use vstd::prelude::*;

use crate::utils::{fits, i32_at, i32_le, u16_at, u16_le};

verus! {

/// One decoded opcode of a row's token stream, with its pixel count already
/// limited to what the row still owes.
#[derive(Debug, Clone, Copy, PartialEq, Eq, Structural)]
pub enum Token {
    /// `n` pixels, each stored as blue, green, red; drawn opaque.
    DirectOpaque(i32),
    /// One blue, green, red color drawn opaque `n` times.
    FillOpaque(i32),
    /// `n` pixels, each stored as alpha, blue, green, red.
    DirectAlpha(i32),
    /// One alpha, blue, green, red color drawn `n` times.
    FillAlpha(i32),
    /// Moves the output cursor by `n` pixels, backward when `n` is negative.
    Move(i32),
}

/// An RGBA pixel as it is written to the output.
pub type Pixel = (u8, u8, u8, u8);

/// The token that a control word's method selects.
pub open spec fn token_of(method: int, count: i32) -> Token {
    if method == 2 {
        Token::DirectOpaque(count)
    } else if method == 3 {
        Token::FillOpaque(count)
    } else if method == 4 {
        Token::DirectAlpha(count)
    } else if method == 5 {
        Token::FillAlpha(count)
    } else {
        Token::Move(count)
    }
}

pub open spec fn token_count(t: Token) -> i32 {
    match t {
        Token::DirectOpaque(n) => n,
        Token::FillOpaque(n) => n,
        Token::DirectAlpha(n) => n,
        Token::FillAlpha(n) => n,
        Token::Move(n) => n,
    }
}

pub open spec fn min_int(a: int, b: int) -> int {
    if a < b {
        a
    } else {
        b
    }
}

/// The token read at position `p` of a row stream while `owed` pixels remain,
/// and the position after it; `None` when the stream ends inside the token.
/// Tokens start at even positions. The control word holds the method in its
/// top 3 bits, a count of padding bytes in the next 2, and the count in the low
/// 11; a zero count means a 32-bit count follows the word. The padding comes
/// after the count.
pub open spec fn token_at(tok: Seq<u8>, p: int, owed: int) -> Option<(Token, int)> {
    let c = p + p % 2;
    if !fits(tok, c, 2) {
        None
    } else {
        let w = u16_le(tok, c);
        let method = w / 8192;
        let skip = (w / 2048) % 4;
        let field = w % 2048;
        if field == 0 && !fits(tok, c + 2, 4) {
            None
        } else {
            let raw: int = if field == 0 {
                i32_le(tok, c + 2) as int
            } else {
                field
            };
            let after = if field == 0 {
                c + 6
            } else {
                c + 2
            };
            Some((token_of(method, min_int(raw, owed) as i32), after + skip))
        }
    }
}

/// Pixels still owed after a token of `n` pixels, saturating at `i32::MAX`.
pub open spec fn owed_after(owed: int, n: int) -> int {
    min_int(owed - n, i32::MAX as int)
}

/// The output cursor moved by `n` pixels, saturating at both ends of `u64`.
pub open spec fn move_cursor(o: int, n: int) -> int {
    if n < 0 {
        if o - 4 * (-n) < 0 {
            0
        } else {
            o - 4 * (-n)
        }
    } else {
        min_int(o + 4 * n, u64::MAX as int)
    }
}

/// `out` with the pixel `px` written at byte `o`.
pub open spec fn put_pixel(out: Seq<u8>, o: int, px: Pixel) -> Seq<u8> {
    out.update(o, px.0).update(o + 1, px.1).update(o + 2, px.2).update(o + 3, px.3)
}

/// Bytes of the stream that one stored pixel takes.
pub open spec fn stored_width(alpha: bool) -> int {
    if alpha {
        4
    } else {
        3
    }
}

/// The stored pixel at `p`: alpha, blue, green, red, or blue, green, red for an
/// opaque one.
pub open spec fn pixel_at(tok: Seq<u8>, p: int, alpha: bool) -> Pixel {
    if alpha {
        (tok[p + 3], tok[p + 2], tok[p + 1], tok[p])
    } else {
        (tok[p + 2], tok[p + 1], tok[p], 0xff)
    }
}

/// Draws `px` up to `n` times from byte `o` on, stopping where a pixel no
/// longer fits in `out`; the result and the cursor after it.
pub open spec fn fill_run(out: Seq<u8>, o: int, n: int, px: Pixel) -> (Seq<u8>, int)
    decreases n,
{
    if n <= 0 || o < 0 || o + 4 > out.len() {
        (out, o)
    } else {
        fill_run(put_pixel(out, o, px), o + 4, n - 1, px)
    }
}

/// Copies up to `n` stored pixels from position `p` of the stream to byte `o`
/// on, stopping where a pixel no longer fits in `out` or the stream ends; the
/// result, the cursor after it, and how many pixels were copied.
pub open spec fn direct_run(tok: Seq<u8>, p: int, out: Seq<u8>, o: int, n: int, alpha: bool) -> (
    Seq<u8>,
    int,
    nat,
)
    decreases n,
{
    if n <= 0 || o < 0 || o + 4 > out.len() || !fits(tok, p, stored_width(alpha)) {
        (out, o, 0)
    } else {
        let r = direct_run(
            tok,
            p + stored_width(alpha),
            put_pixel(out, o, pixel_at(tok, p, alpha)),
            o + 4,
            n - 1,
            alpha,
        );
        (r.0, r.1, r.2 + 1)
    }
}

/// The stream position after `k` stored pixels from `p`.
pub open spec fn after_pixels(p: int, k: nat, alpha: bool) -> int {
    if alpha {
        p + 4 * k
    } else {
        p + 3 * k
    }
}

pub proof fn lemma_direct_run_bounds(
    tok: Seq<u8>,
    p: int,
    out: Seq<u8>,
    o: int,
    n: int,
    alpha: bool,
)
    ensures
        direct_run(tok, p, out, o, n, alpha).2 == 0 || after_pixels(
            p,
            direct_run(tok, p, out, o, n, alpha).2,
            alpha,
        ) <= tok.len(),
        direct_run(tok, p, out, o, n, alpha).0.len() == out.len(),
    decreases n,
{
    if !(n <= 0 || o < 0 || o + 4 > out.len() || !fits(tok, p, stored_width(alpha))) {
        lemma_direct_run_bounds(
            tok,
            p + stored_width(alpha),
            put_pixel(out, o, pixel_at(tok, p, alpha)),
            o + 4,
            n - 1,
            alpha,
        );
    }
}

pub proof fn lemma_fill_run_len(out: Seq<u8>, o: int, n: int, px: Pixel)
    ensures
        fill_run(out, o, n, px).0.len() == out.len(),
    decreases n,
{
    if !(n <= 0 || o < 0 || o + 4 > out.len()) {
        lemma_fill_run_len(put_pixel(out, o, px), o + 4, n - 1, px);
    }
}

/// Decodes the rest of a row stream from position `p`, with `owed` pixels
/// still owed and the output cursor at byte `o`; the output and the cursor
/// when the row ends. The row ends when nothing is owed, the stream is used up,
/// or it ends inside a token.
pub open spec fn row_loop(tok: Seq<u8>, p: int, owed: int, o: int, out: Seq<u8>) -> (Seq<u8>, int)
    decreases tok.len() + 8 - p,
{
    if owed <= 0 || p >= tok.len() {
        (out, o)
    } else {
        match token_at(tok, p, owed) {
            None => (out, o),
            Some((t, q)) => {
                let owed2 = owed_after(owed, token_count(t) as int);
                match t {
                    Token::DirectOpaque(n) => {
                        let r = direct_run(tok, q, out, o, n as int, false);
                        proof {
                            lemma_direct_run_bounds(tok, q, out, o, n as int, false);
                        }
                        row_loop(tok, after_pixels(q, r.2, false), owed2, r.1, r.0)
                    },
                    Token::DirectAlpha(n) => {
                        let r = direct_run(tok, q, out, o, n as int, true);
                        proof {
                            lemma_direct_run_bounds(tok, q, out, o, n as int, true);
                        }
                        row_loop(tok, after_pixels(q, r.2, true), owed2, r.1, r.0)
                    },
                    Token::FillOpaque(n) => {
                        if !fits(tok, q, 3) {
                            (out, o)
                        } else {
                            let r = fill_run(out, o, n as int, pixel_at(tok, q, false));
                            row_loop(tok, q + 3, owed2, r.1, r.0)
                        }
                    },
                    Token::FillAlpha(n) => {
                        if !fits(tok, q, 4) {
                            (out, o)
                        } else {
                            let r = fill_run(out, o, n as int, pixel_at(tok, q, true));
                            row_loop(tok, q + 4, owed2, r.1, r.0)
                        }
                    },
                    Token::Move(n) => row_loop(tok, q, owed2, move_cursor(o, n as int), out),
                }
            },
        }
    }
}

/// Decoding a row never changes the output's length: every draw stops at the
/// end of the buffer.
pub proof fn lemma_row_loop_keeps_length(tok: Seq<u8>, p: int, owed: int, o: int, out: Seq<u8>)
    ensures
        row_loop(tok, p, owed, o, out).0.len() == out.len(),
    decreases tok.len() + 8 - p,
{
    if !(owed <= 0 || p >= tok.len()) {
        if let Some((t, q)) = token_at(tok, p, owed) {
            let owed2 = owed_after(owed, token_count(t) as int);
            match t {
                Token::DirectOpaque(n) => {
                    let r = direct_run(tok, q, out, o, n as int, false);
                    lemma_direct_run_bounds(tok, q, out, o, n as int, false);
                    lemma_row_loop_keeps_length(tok, after_pixels(q, r.2, false), owed2, r.1, r.0);
                },
                Token::DirectAlpha(n) => {
                    let r = direct_run(tok, q, out, o, n as int, true);
                    lemma_direct_run_bounds(tok, q, out, o, n as int, true);
                    lemma_row_loop_keeps_length(tok, after_pixels(q, r.2, true), owed2, r.1, r.0);
                },
                Token::FillOpaque(n) => {
                    if fits(tok, q, 3) {
                        let r = fill_run(out, o, n as int, pixel_at(tok, q, false));
                        lemma_fill_run_len(out, o, n as int, pixel_at(tok, q, false));
                        lemma_row_loop_keeps_length(tok, q + 3, owed2, r.1, r.0);
                    }
                },
                Token::FillAlpha(n) => {
                    if fits(tok, q, 4) {
                        let r = fill_run(out, o, n as int, pixel_at(tok, q, true));
                        lemma_fill_run_len(out, o, n as int, pixel_at(tok, q, true));
                        lemma_row_loop_keeps_length(tok, q + 4, owed2, r.1, r.0);
                    }
                },
                Token::Move(n) => {
                    lemma_row_loop_keeps_length(tok, q, owed2, move_cursor(o, n as int), out);
                },
            }
        }
    }
}

/// The output after decoding a whole row stream of a row `width` pixels wide,
/// starting at byte `start`, and the cursor where it stopped.
pub open spec fn decode_row(tok: Seq<u8>, out: Seq<u8>, start: int, width: int) -> (Seq<u8>, int) {
    row_loop(tok, 0, width, start, out)
}

/// Whatever a row's tokens ask for, decoding it leaves the output exactly as
/// long as it was: no byte is written past its end.
pub proof fn lemma_decode_row_in_bounds(tok: Seq<u8>, out: Seq<u8>, start: int, width: int)
    ensures
        decode_row(tok, out, start, width).0.len() == out.len(),
{
    lemma_row_loop_keeps_length(tok, 0, width, start, out);
}

impl Token {
    /// The token's pixel count.
    pub fn count(&self) -> (r: i32)
        ensures
            r == token_count(*self),
    {
        match *self {
            Token::DirectOpaque(n) => n,
            Token::FillOpaque(n) => n,
            Token::DirectAlpha(n) => n,
            Token::FillAlpha(n) => n,
            Token::Move(n) => n,
        }
    }

    /// The token that `method` selects, carrying `count`.
    pub fn from_method(method: u16, count: i32) -> (r: Token)
        ensures
            r == token_of(method as int, count),
    {
        match method {
            2 => Token::DirectOpaque(count),
            3 => Token::FillOpaque(count),
            4 => Token::DirectAlpha(count),
            5 => Token::FillAlpha(count),
            _ => Token::Move(count),
        }
    }
}

/// Reads the token at position `pos` of a row stream while `owed` pixels are
/// still owed; returns it with the position after it.
pub fn read_token(decode_buf: &[u8], pos: usize, owed: i32) -> (r: Option<(Token, usize)>)
    requires
        decode_buf@.len() <= isize::MAX,
    ensures
        match r {
            Some((t, q)) => token_at(decode_buf@, pos as int, owed as int) == Some((t, q as int)),
            None => token_at(decode_buf@, pos as int, owed as int) is None,
        },
{
    let len = decode_buf.len();
    if pos >= len {
        return None;
    }
    let c = pos + pos % 2;
    if c > len || len - c < 2 {
        return None;
    }
    let w = u16_at(decode_buf, c);
    let method: u16 = w / 8192;
    let skip: usize = ((w / 2048) % 4) as usize;
    let field: u16 = w % 2048;
    let raw: i32;
    let after: usize;
    if field == 0 {
        if len - (c + 2) < 4 {
            return None;
        }
        raw = i32_at(decode_buf, c + 2);
        after = c + 6;
    } else {
        raw = field as i32;
        after = c + 2;
    }
    let count = if raw < owed {
        raw
    } else {
        owed
    };
    Some((Token::from_method(method, count), after + skip))
}

/// Pixels still owed after a token of `n` pixels.
fn owed_after_token(owed: i32, n: i32) -> (r: i32)
    requires
        n <= owed,
    ensures
        r == owed_after(owed as int, n as int),
{
    let d = owed as i64 - n as i64;
    if d > i32::MAX as i64 {
        i32::MAX
    } else {
        d as i32
    }
}

/// The output cursor moved by `n` pixels.
pub fn moved_cursor(offset: u64, n: i32) -> (r: u64)
    ensures
        r == move_cursor(offset as int, n as int),
{
    if n < 0 {
        let back = (-(n as i64)) as u64 * 4;
        if back > offset {
            0
        } else {
            offset - back
        }
    } else {
        let ahead = n as u64 * 4;
        if offset > u64::MAX - ahead {
            u64::MAX
        } else {
            offset + ahead
        }
    }
}

fn write_pixel(buf: &mut Vec<u8>, o: usize, px: Pixel)
    requires
        o + 4 <= old(buf)@.len(),
    ensures
        final(buf)@ == put_pixel(old(buf)@, o as int, px),
{
    let len = buf.len();
    assert(o + 4 <= len);
    buf.set(o, px.0);
    buf.set(o + 1, px.1);
    buf.set(o + 2, px.2);
    buf.set(o + 3, px.3);
}

fn stored_pixel(tok: &[u8], p: usize, alpha: bool) -> (r: Pixel)
    requires
        fits(tok@, p as int, stored_width(alpha)),
    ensures
        r == pixel_at(tok@, p as int, alpha),
{
    let len = tok.len();
    assert(p + stored_width(alpha) <= len);
    if alpha {
        (tok[p + 3], tok[p + 2], tok[p + 1], tok[p])
    } else {
        (tok[p + 2], tok[p + 1], tok[p], 0xff)
    }
}

/// Whether a pixel fits at byte `o` of an output `len` bytes long.
fn has_room(len: usize, o: u64) -> (r: bool)
    ensures
        r == (o + 4 <= len),
{
    o <= len as u64 && len as u64 - o >= 4
}

/// Draws `px` up to `n` times at the cursor, as `fill_run` says.
fn fill_pixels(buf: &mut Vec<u8>, offset: &mut u64, n: i32, px: Pixel)
    ensures
        (final(buf)@, *final(offset) as int) == fill_run(
            old(buf)@,
            *old(offset) as int,
            n as int,
            px,
        ),
{
    let ghost target = fill_run(buf@, *offset as int, n as int, px);
    let mut k: i32 = 0;
    while k < n
        invariant
            0 <= k,
            n > 0 ==> k <= n,
            n <= 0 ==> k == 0,
            target == fill_run(buf@, *offset as int, n - k, px),
        ensures
            target == (buf@, *offset as int),
        decreases n - k,
    {
        let len = buf.len();
        if !has_room(len, *offset) {
            assert(fill_run(buf@, *offset as int, n - k, px) == (buf@, *offset as int));
            break;
        }
        write_pixel(buf, *offset as usize, px);
        *offset = *offset + 4;
        k += 1;
    }
}

/// Copies up to `n` stored pixels from position `p` of the stream to the
/// cursor, as `direct_run` says; returns the stream position after them.
fn copy_pixels(tok: &[u8], p: usize, buf: &mut Vec<u8>, offset: &mut u64, n: i32, alpha: bool) -> (r: usize)
    requires
        tok@.len() <= isize::MAX,
        p <= tok@.len() + 8,
    ensures
        ({
            let d = direct_run(tok@, p as int, old(buf)@, *old(offset) as int, n as int, alpha);
            final(buf)@ == d.0 && *final(offset) == d.1 && r == after_pixels(p as int, d.2, alpha)
        }),
{
    let ghost buf0 = buf@;
    let ghost o0 = *offset as int;
    let width: usize = if alpha {
        4
    } else {
        3
    };
    let mut q: usize = p;
    let mut k: i32 = 0;
    while k < n
        invariant
            tok@.len() <= isize::MAX,
            width == stored_width(alpha),
            0 <= k,
            n > 0 ==> k <= n,
            n <= 0 ==> k == 0,
            q == after_pixels(p as int, k as nat, alpha),
            q <= tok@.len() + 8,
            ({
                let d = direct_run(tok@, p as int, buf0, o0, n as int, alpha);
                let e = direct_run(tok@, q as int, buf@, *offset as int, n - k, alpha);
                d.0 == e.0 && d.1 == e.1 && d.2 == k + e.2
            }),
        ensures
            ({
                let d = direct_run(tok@, p as int, buf0, o0, n as int, alpha);
                d.0 == buf@ && d.1 == *offset && q == after_pixels(p as int, d.2, alpha)
            }),
        decreases n - k,
    {
        let len = buf.len();
        if !has_room(len, *offset) || q > tok.len() || tok.len() - q < width {
            assert(direct_run(tok@, q as int, buf@, *offset as int, n - k, alpha) == (buf@, *offset as int, 0nat));
            break;
        }
        let px = stored_pixel(tok, q, alpha);
        write_pixel(buf, *offset as usize, px);
        *offset = *offset + 4;
        q = q + width;
        k += 1;
    }
    q
}

/// Decodes one row's token stream into `buf`, from the cursor `offset` on, for
/// a row `width` pixels wide; `offset` ends where the cursor stopped.
/// Draws never reach past the end of `buf`, and a stream that ends inside a
/// token ends the row.
pub fn decode_line(decode_buf: &[u8], buf: &mut Vec<u8>, offset: &mut u64, width: i32)
    requires
        decode_buf@.len() <= isize::MAX,
    ensures
        (final(buf)@, *final(offset) as int) == decode_row(
            decode_buf@,
            old(buf)@,
            *old(offset) as int,
            width as int,
        ),
        final(buf)@.len() == old(buf)@.len(),
{
    proof {
        lemma_decode_row_in_bounds(decode_buf@, buf@, *offset as int, width as int);
    }
    let ghost target = decode_row(decode_buf@, buf@, *offset as int, width as int);
    let len = decode_buf.len();
    let mut pos: usize = 0;
    let mut owed: i32 = width;
    while owed > 0 && pos < len
        invariant
            len == decode_buf@.len() <= isize::MAX,
            pos <= len + 8,
            target == row_loop(decode_buf@, pos as int, owed as int, *offset as int, buf@),
        ensures
            target == (buf@, *offset as int),
        decreases len + 8 - pos,
    {
        match read_token(decode_buf, pos, owed) {
            None => {
                break;
            },
            Some((token, next)) => {
                owed = owed_after_token(owed, token.count());
                match token {
                    Token::DirectOpaque(n) => {
                        proof {
                            lemma_direct_run_bounds(decode_buf@, next as int, buf@, *offset as int, n as int, false);
                        }
                        pos = copy_pixels(decode_buf, next, buf, offset, n, false);
                    },
                    Token::DirectAlpha(n) => {
                        proof {
                            lemma_direct_run_bounds(decode_buf@, next as int, buf@, *offset as int, n as int, true);
                        }
                        pos = copy_pixels(decode_buf, next, buf, offset, n, true);
                    },
                    Token::FillOpaque(n) => {
                        if next > len || len - next < 3 {
                            break;
                        }
                        let px = stored_pixel(decode_buf, next, false);
                        fill_pixels(buf, offset, n, px);
                        pos = next + 3;
                    },
                    Token::FillAlpha(n) => {
                        if next > len || len - next < 4 {
                            break;
                        }
                        let px = stored_pixel(decode_buf, next, true);
                        fill_pixels(buf, offset, n, px);
                        pos = next + 4;
                    },
                    Token::Move(n) => {
                        *offset = moved_cursor(*offset, n);
                        pos = next;
                    },
                }
            },
        }
    }
}

/// A control word: method in the top 3 bits, padding count in the next 2,
/// count in the low 11.
pub open spec fn control_word(method: int, skip: int, count: int) -> int {
    method * 8192 + skip * 2048 + count
}

/// The two little-endian bytes of a 16-bit value.
pub open spec fn word_bytes(w: int) -> Seq<u8> {
    seq![(w % 256) as u8, (w / 256) as u8]
}

/// The four little-endian bytes of a value below 65536.
pub open spec fn count_bytes(n: int) -> Seq<u8> {
    seq![(n % 256) as u8, (n / 256) as u8, 0u8, 0u8]
}

/// Byte `k` of a pixel as it is written.
pub open spec fn pixel_byte(px: Pixel, k: int) -> u8 {
    if k == 0 {
        px.0
    } else if k == 1 {
        px.1
    } else if k == 2 {
        px.2
    } else {
        px.3
    }
}

/// `out` with `n` copies of `px` from byte `o` on.
pub open spec fn painted(out: Seq<u8>, o: int, n: int, px: Pixel) -> Seq<u8> {
    Seq::new(
        out.len(),
        |i: int|
            if o <= i < o + 4 * n {
                pixel_byte(px, (i - o) % 4)
            } else {
                out[i]
            },
    )
}

/// A fill of `n` pixels with room for only `k` of them (or exactly `n`)
/// paints those `k` pixels and leaves the cursor after them.
proof fn lemma_fill_run_paints(out: Seq<u8>, o: int, n: int, k: nat, px: Pixel)
    requires
        0 <= o,
        k <= n,
        o + 4 * k <= out.len(),
        k == n || o + 4 * k + 4 > out.len(),
    ensures
        fill_run(out, o, n, px) == (painted(out, o, k as int, px), o + 4 * k),
    decreases k,
{
    if k > 0 {
        let next = put_pixel(out, o, px);
        lemma_fill_run_paints(next, o + 4, n - 1, (k - 1) as nat, px);
        assert(painted(next, o + 4, k - 1, px) =~= painted(out, o, k as int, px));
    } else {
        assert(painted(out, o, 0, px) =~= out);
    }
}

/// `out` with the `k` stored pixels from stream position `p` copied to byte
/// `o` on.
pub open spec fn copied(out: Seq<u8>, o: int, k: int, tok: Seq<u8>, p: int, alpha: bool) -> Seq<u8> {
    Seq::new(
        out.len(),
        |i: int|
            if o <= i < o + 4 * k {
                pixel_byte(pixel_at(tok, after_pixels(p, ((i - o) / 4) as nat, alpha), alpha), (i - o) % 4)
            } else {
                out[i]
            },
    )
}

/// A copy of `n` pixels with room for only `k` of them (or exactly `n`), all
/// present in the stream, copies those `k` and leaves the cursor after them.
proof fn lemma_direct_run_copies(
    tok: Seq<u8>,
    p: int,
    out: Seq<u8>,
    o: int,
    n: int,
    k: nat,
    alpha: bool,
)
    requires
        0 <= o,
        0 <= p,
        k <= n,
        o + 4 * k <= out.len(),
        after_pixels(p, k, alpha) <= tok.len(),
        k == n || o + 4 * k + 4 > out.len(),
    ensures
        direct_run(tok, p, out, o, n, alpha) == (copied(out, o, k as int, tok, p, alpha), o + 4 * k, k),
    decreases k,
{
    let w = stored_width(alpha);
    if k > 0 {
        let next = put_pixel(out, o, pixel_at(tok, p, alpha));
        lemma_direct_run_copies(tok, p + w, next, o + 4, n - 1, (k - 1) as nat, alpha);
        let lhs = copied(next, o + 4, k - 1, tok, p + w, alpha);
        let rhs = copied(out, o, k as int, tok, p, alpha);
        assert forall|i: int| 0 <= i < out.len() implies #[trigger] lhs[i] == rhs[i] by {
            if o + 4 <= i < o + 4 * k {
                let j = (i - o) / 4;
                assert((i - o - 4) / 4 == j - 1);
                assert((i - o - 4) % 4 == (i - o) % 4);
                assert(after_pixels(p + w, (j - 1) as nat, alpha) == after_pixels(p, j as nat, alpha));
            } else if o <= i < o + 4 {
                assert((i - o) / 4 == 0);
                assert((i - o) % 4 == i - o);
            }
        }
        assert(copied(next, o + 4, k - 1, tok, p + w, alpha) =~= copied(out, o, k as int, tok, p, alpha));
    } else {
        assert(copied(out, o, 0, tok, p, alpha) =~= out);
    }
}

proof fn lemma_control_word_fields(method: int, skip: int, count: int)
    requires
        0 <= method <= 7,
        0 <= skip <= 3,
        0 <= count <= 2047,
    ensures
        u16_le(word_bytes(control_word(method, skip, count)), 0) == control_word(method, skip, count),
        control_word(method, skip, count) / 8192 == method,
        (control_word(method, skip, count) / 2048) % 4 == skip,
        control_word(method, skip, count) % 2048 == count,
{
    let w = control_word(method, skip, count);
    assert(w / 8192 == method) by (nonlinear_arith)
        requires
            w == method * 8192 + skip * 2048 + count,
            0 <= skip * 2048 + count < 8192,
    ;
    assert(w / 2048 == method * 4 + skip) by (nonlinear_arith)
        requires
            w == (method * 4 + skip) * 2048 + count,
            0 <= count < 2048,
    ;
    assert((method * 4 + skip) % 4 == skip) by (nonlinear_arith)
        requires
            0 <= skip < 4,
            0 <= method,
    ;
    assert(w % 2048 == count) by (nonlinear_arith)
        requires
            w == (method * 4 + skip) * 2048 + count,
            0 <= count < 2048,
            0 <= method * 4 + skip,
    ;
}

/// A row made of one fill token (method 3) of `width` pixels in the color
/// blue 0, green 0, red 255 draws `width` opaque red pixels from its start and
/// leaves every other byte alone.
pub proof fn lemma_fill_row(out: Seq<u8>, start: int, width: int)
    requires
        1 <= width <= 2047,
        0 <= start,
        start + 4 * width <= out.len(),
    ensures
        ({
            let tok = word_bytes(control_word(3, 0, width)) + seq![0u8, 0u8, 255u8];
            decode_row(tok, out, start, width).0 == painted(out, start, width, (255u8, 0u8, 0u8, 255u8))
        }),
{
    let tok = word_bytes(control_word(3, 0, width)) + seq![0u8, 0u8, 255u8];
    lemma_control_word_fields(3, 0, width);
    assert(u16_le(tok, 0) == u16_le(word_bytes(control_word(3, 0, width)), 0));
    assert(token_at(tok, 0, width) == Some((Token::FillOpaque(width as i32), 2int)));
    assert(pixel_at(tok, 2, false) == (255u8, 0u8, 0u8, 255u8));
    let px = (255u8, 0u8, 0u8, 255u8);
    lemma_fill_run_paints(out, start, width, width as nat, px);
    let r = fill_run(out, start, width, px);
    assert(owed_after(width, width) == 0);
    assert(row_loop(tok, 5, 0, r.1, r.0) == (r.0, r.1));
}

/// A row made of one move token of `width` pixels (a method other than 2 to 5)
/// writes nothing: the output stays as it was, and the cursor ends `width`
/// pixels on.
pub proof fn lemma_move_row(out: Seq<u8>, start: int, width: int, method: int)
    requires
        1 <= width <= 2047,
        0 <= method <= 7,
        !(2 <= method <= 5),
        0 <= start,
        start + 4 * width <= u64::MAX,
    ensures
        decode_row(word_bytes(control_word(method, 0, width)), out, start, width) == (
            out,
            start + 4 * width,
        ),
{
    let tok = word_bytes(control_word(method, 0, width));
    lemma_control_word_fields(method, 0, width);
    assert(token_at(tok, 0, width) == Some((Token::Move(width as i32), 2int)));
    assert(owed_after(width, width) == 0);
    assert(row_loop(tok, 2, 0, start + 4 * width, out) == (out, start + 4 * width));
}

proof fn lemma_direct_run_shift(
    a: Seq<u8>,
    pa: int,
    b: Seq<u8>,
    pb: int,
    out: Seq<u8>,
    o: int,
    n: int,
    alpha: bool,
)
    requires
        0 <= pa,
        0 <= pb,
        pa <= a.len(),
        pb <= b.len(),
        a.subrange(pa, a.len() as int) == b.subrange(pb, b.len() as int),
    ensures
        direct_run(a, pa, out, o, n, alpha).0 == direct_run(b, pb, out, o, n, alpha).0,
        direct_run(a, pa, out, o, n, alpha).1 == direct_run(b, pb, out, o, n, alpha).1,
        direct_run(a, pa, out, o, n, alpha).2 == direct_run(b, pb, out, o, n, alpha).2,
    decreases n,
{
    let w = stored_width(alpha);
    let sa = a.subrange(pa, a.len() as int);
    let sb = b.subrange(pb, b.len() as int);
    assert(sa.len() == a.len() - pa);
    assert(sb.len() == b.len() - pb);
    assert(a.len() - pa == b.len() - pb);
    if !(n <= 0 || o < 0 || o + 4 > out.len() || !fits(a, pa, w)) {
        assert(a[pa] == sa[0]);
        assert(b[pb] == sb[0]);
        assert(a[pa + 1] == sa[1]);
        assert(b[pb + 1] == sb[1]);
        assert(a[pa + 2] == sa[2]);
        assert(b[pb + 2] == sb[2]);
        if alpha {
            assert(a[pa + 3] == sa[3]);
            assert(b[pb + 3] == sb[3]);
        }
        assert(pixel_at(a, pa, alpha) == pixel_at(b, pb, alpha));
        let next = put_pixel(out, o, pixel_at(a, pa, alpha));
        assert(a.subrange(pa + w, a.len() as int) =~= sa.subrange(w, sa.len() as int));
        assert(b.subrange(pb + w, b.len() as int) =~= sb.subrange(w, sb.len() as int));
        lemma_direct_run_shift(a, pa + w, b, pb + w, next, o + 4, n - 1, alpha);
    }
}

/// A token whose count field is zero and whose 32-bit count that follows is
/// `width` decodes a row exactly as the same token with `width` in its count
/// field, whatever the method, the padding and the bytes that follow.
pub proof fn lemma_extended_count(
    out: Seq<u8>,
    start: int,
    width: int,
    method: int,
    skip: int,
    rest: Seq<u8>,
)
    requires
        1 <= width <= 2047,
        0 <= method <= 7,
        0 <= skip <= 3,
    ensures
        decode_row(
            word_bytes(control_word(method, skip, 0)) + count_bytes(width) + rest,
            out,
            start,
            width,
        ) == decode_row(word_bytes(control_word(method, skip, width)) + rest, out, start, width),
{
    let a = word_bytes(control_word(method, skip, 0)) + count_bytes(width) + rest;
    let b = word_bytes(control_word(method, skip, width)) + rest;
    lemma_control_word_fields(method, skip, 0);
    lemma_control_word_fields(method, skip, width);
    assert(u16_le(a, 0) == control_word(method, skip, 0));
    assert(u16_le(b, 0) == control_word(method, skip, width));
    assert(i32_le(a, 2) == width);
    let t = token_of(method, width as i32);
    assert(token_at(a, 0, width) == Some((t, 6 + skip)));
    assert(token_at(b, 0, width) == Some((t, 2 + skip)));
    let qa = 6 + skip;
    let qb = 2 + skip;
    assert(owed_after(width, width) == 0);
    assert(a.len() - qa == b.len() - qb);
    if skip <= rest.len() {
        assert(a.subrange(qa, a.len() as int) =~= rest.subrange(skip, rest.len() as int));
        assert(b.subrange(qb, b.len() as int) =~= rest.subrange(skip, rest.len() as int));
        if fits(a, qa, 3) {
            assert(a[qa] == b[qb]);
            assert(a[qa + 1] == b[qb + 1]);
            assert(a[qa + 2] == b[qb + 2]);
        }
        if fits(a, qa, 4) {
            assert(a[qa + 3] == b[qb + 3]);
        }
        lemma_direct_run_shift(a, qa, b, qb, out, start, width, false);
        lemma_direct_run_shift(a, qa, b, qb, out, start, width, true);
    }
    match t {
        Token::DirectOpaque(_) => {
            let ra = direct_run(a, qa, out, start, width, false);
            let rb = direct_run(b, qb, out, start, width, false);
            assert(row_loop(a, after_pixels(qa, ra.2, false), 0, ra.1, ra.0) == (ra.0, ra.1));
            assert(row_loop(b, after_pixels(qb, rb.2, false), 0, rb.1, rb.0) == (rb.0, rb.1));
        },
        Token::DirectAlpha(_) => {
            let ra = direct_run(a, qa, out, start, width, true);
            let rb = direct_run(b, qb, out, start, width, true);
            assert(row_loop(a, after_pixels(qa, ra.2, true), 0, ra.1, ra.0) == (ra.0, ra.1));
            assert(row_loop(b, after_pixels(qb, rb.2, true), 0, rb.1, rb.0) == (rb.0, rb.1));
        },
        Token::FillOpaque(_) => {
            if fits(a, qa, 3) {
                let r = fill_run(out, start, width, pixel_at(a, qa, false));
                assert(pixel_at(a, qa, false) == pixel_at(b, qb, false));
                assert(row_loop(a, qa + 3, 0, r.1, r.0) == (r.0, r.1));
                assert(row_loop(b, qb + 3, 0, r.1, r.0) == (r.0, r.1));
            }
        },
        Token::FillAlpha(_) => {
            if fits(a, qa, 4) {
                let r = fill_run(out, start, width, pixel_at(a, qa, true));
                assert(pixel_at(a, qa, true) == pixel_at(b, qb, true));
                assert(row_loop(a, qa + 4, 0, r.1, r.0) == (r.0, r.1));
                assert(row_loop(b, qb + 4, 0, r.1, r.0) == (r.0, r.1));
            }
        },
        Token::Move(_) => {
            let o = move_cursor(start, width);
            assert(row_loop(a, qa, 0, o, out) == (out, o));
            assert(row_loop(b, qb, 0, o, out) == (out, o));
        },
    }
}

/// A row whose one fill token (method 3 or 5) asks for more pixels than are
/// left before the end of the output draws only the `k` that fit, which reach
/// exactly to the end, and stops there without error.
pub proof fn lemma_fill_overrun(out: Seq<u8>, start: int, width: int, method: int, count: int, k: nat, color: Seq<u8>)
    requires
        method == 3 || method == 5,
        1 <= count <= width <= 2047,
        0 <= start,
        k < count,
        start + 4 * k == out.len(),
        color.len() == stored_width(method == 5),
    ensures
        ({
            let alpha = method == 5;
            let tok = word_bytes(control_word(method, 0, count)) + color;
            decode_row(tok, out, start, width) == (
                painted(out, start, k as int, pixel_at(tok, 2, alpha)),
                out.len() as int,
            )
        }),
{
    let alpha = method == 5;
    let tok = word_bytes(control_word(method, 0, count)) + color;
    lemma_control_word_fields(method, 0, count);
    assert(u16_le(tok, 0) == u16_le(word_bytes(control_word(method, 0, count)), 0));
    let t = token_of(method, count as i32);
    assert(token_at(tok, 0, width) == Some((t, 2int)));
    let px = pixel_at(tok, 2, alpha);
    lemma_fill_run_paints(out, start, count, k, px);
    let r = fill_run(out, start, count, px);
    let owed2 = owed_after(width, count);
    if alpha {
        assert(row_loop(tok, 6, owed2, r.1, r.0) == (r.0, r.1));
    } else {
        assert(row_loop(tok, 5, owed2, r.1, r.0) == (r.0, r.1));
    }
}

/// A row whose one copy token (method 2 or 4) asks for a whole row of pixels,
/// all present in the stream, while only `k` fit before the end of the output,
/// copies the first `k`, which reach exactly to the end, and stops there
/// without error.
pub proof fn lemma_copy_overrun(out: Seq<u8>, start: int, width: int, method: int, k: nat, data: Seq<u8>)
    requires
        method == 2 || method == 4,
        1 <= width <= 2047,
        0 <= start,
        k < width,
        start + 4 * k == out.len(),
        data.len() == after_pixels(0, width as nat, method == 4),
    ensures
        ({
            let alpha = method == 4;
            let tok = word_bytes(control_word(method, 0, width)) + data;
            decode_row(tok, out, start, width) == (
                copied(out, start, k as int, tok, 2, alpha),
                out.len() as int,
            )
        }),
{
    let alpha = method == 4;
    let tok = word_bytes(control_word(method, 0, width)) + data;
    lemma_control_word_fields(method, 0, width);
    assert(u16_le(tok, 0) == u16_le(word_bytes(control_word(method, 0, width)), 0));
    let t = token_of(method, width as i32);
    assert(token_at(tok, 0, width) == Some((t, 2int)));
    lemma_direct_run_copies(tok, 2, out, start, width, k, alpha);
    let r = direct_run(tok, 2, out, start, width, alpha);
    assert(owed_after(width, width) == 0);
    assert(row_loop(tok, after_pixels(2, r.2, alpha), 0, r.1, r.0) == (r.0, r.1));
}

} // verus!
