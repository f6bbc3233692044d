//! Window thumbnails: their cache file names, which cached files to remove, the pixel order
//! of a captured bitmap, its PNG file, and the data URL that carries a PNG.
use vstd::prelude::*;
use vstd::string::StringExecFns;
use crate::digits::{decimal_i64, decimal_u64, dec_text, int_text};
use crate::errors::PlatformError;
use crate::order::{lemma_insert_desc, stable_desc};
use base64::Engine;

verus! {

/// How long a cached thumbnail stays fresh, in seconds.
pub const TTL_SECS: u64 = 15;

/// How many cached thumbnails are kept at most.
pub const MAX_ENTRIES: usize = 100;

/// The cache file name of the thumbnail of window `hwnd` at most `w` by `h` pixels:
/// "{hwnd}_{w}x{h}.png".
pub open spec fn cache_name(hwnd: i64, w: u32, h: u32) -> Seq<char> {
    int_text(hwnd as int) + seq!['_'] + dec_text(w as nat) + seq!['x'] + dec_text(h as nat) + seq![
        '.',
        'p',
        'n',
        'g',
    ]
}

/// The cache file name of the thumbnail of window `hwnd` at most `w` by `h` pixels.
pub fn cache_file_name(hwnd: i64, w: u32, h: u32) -> (r: String)
    ensures
        r@ == cache_name(hwnd, w, h),
{
    let mut s = decimal_i64(hwnd);
    proof {
        reveal_strlit("_");
        reveal_strlit("x");
        reveal_strlit(".png");
    }
    s.append("_");
    let ws = decimal_u64(w as u64);
    s.append(ws.as_str());
    s.append("x");
    let hs = decimal_u64(h as u64);
    s.append(hs.as_str());
    s.append(".png");
    assert(s@ =~= cache_name(hwnd, w, h));
    s
}

/// The character of a 6-bit value in the standard base64 alphabet: `A-Z`, `a-z`, `0-9`,
/// `+`, `/`.
pub open spec fn base64_char(v: int) -> char {
    if v < 26 {
        ('A' as int + v) as char
    } else if v < 52 {
        ('a' as int + (v - 26)) as char
    } else if v < 62 {
        ('0' as int + (v - 52)) as char
    } else if v == 62 {
        '+'
    } else {
        '/'
    }
}

/// The standard base64 encoding (RFC 4648, with `=` padding) of `bytes`: each group of 3
/// bytes becomes 4 characters of 6 bits each; a last group of 1 or 2 bytes is padded.
pub open spec fn base64_standard(bytes: Seq<u8>) -> Seq<char>
    decreases bytes.len(),
{
    if bytes.len() == 0 {
        seq![]
    } else {
        let b0 = bytes[0] as int;
        let b1 = if bytes.len() > 1 { bytes[1] as int } else { 0 };
        let b2 = if bytes.len() > 2 { bytes[2] as int } else { 0 };
        let c0 = base64_char(b0 / 4);
        let c1 = base64_char((b0 % 4) * 16 + b1 / 16);
        if bytes.len() == 1 {
            seq![c0, c1, '=', '=']
        } else if bytes.len() == 2 {
            seq![c0, c1, base64_char((b1 % 16) * 4), '=']
        } else {
            seq![c0, c1, base64_char((b1 % 16) * 4 + b2 / 64), base64_char(b2 % 64)] + base64_standard(
                bytes.skip(3),
            )
        }
    }
}

/// The length of the standard base64 encoding of `n` bytes: 4 characters per started group
/// of 3 bytes.
pub open spec fn base64_len(n: nat) -> nat {
    4 * (n / 3) + if n % 3 > 0 {
        4nat
    } else {
        0nat
    }
}

/// `base64::engine::general_purpose::STANDARD.encode`: the standard base64 encoding of
/// `bytes`, padded, 4 characters per started group of 3 bytes. It panics when that length
/// does not fit in `usize`, which `requires` rules out.
#[verifier::external_body]
fn base64_encode(bytes: &[u8]) -> (r: String)
    requires
        base64_len(bytes@.len()) <= usize::MAX,
    ensures
        r@ == base64_standard(bytes@),
        r@.len() == base64_len(bytes@.len()),
{
    base64::engine::general_purpose::STANDARD.encode(bytes)
}

/// The start of a PNG data URL.
pub open spec fn png_data_prefix() -> Seq<char> {
    "data:image/png;base64,"@
}

/// The PNG data URL that carries base64 text `encoded`.
pub fn data_url_from_base64(encoded: &str) -> (r: String)
    ensures
        r@ == png_data_prefix() + encoded@,
{
    let mut s = String::new();
    s.append("data:image/png;base64,");
    s.append(encoded);
    assert(s@ =~= png_data_prefix() + encoded@);
    s
}

/// The PNG data URL of a PNG file's bytes.
pub fn encode_data_url(bytes: &[u8]) -> (r: String)
    requires
        base64_len(bytes@.len()) <= usize::MAX,
    ensures
        r@ == png_data_prefix() + base64_standard(bytes@),
{
    let encoded = base64_encode(bytes);
    data_url_from_base64(encoded.as_str())
}

/// Whether a cached thumbnail of that age, in milliseconds, is still fresh.
pub fn is_fresh(age_ms: u64) -> (r: bool)
    ensures
        r == (age_ms < TTL_SECS * 1000),
{
    age_ms < TTL_SECS * 1000
}

/// A file found in the thumbnail cache.
#[derive(Debug, Clone, Copy)]
pub struct CacheEntry {
    /// Whether its extension is "png".
    pub is_png: bool,
    /// When it was last modified, in milliseconds since the Unix epoch, if known.
    pub modified_ms: Option<i64>,
}

/// Whether a cached file has expired at `now`: modified more than the time-to-live ago, or
/// later than `now`.
pub open spec fn expired_at(now: i64, m: i64) -> bool {
    m > now || now - m > TTL_SECS * 1000
}

/// The indices of the expired thumbnails among entries `0..n`.
pub open spec fn expired_upto(now: i64, entries: Seq<CacheEntry>, n: int) -> Seq<usize>
    decreases n,
{
    if n <= 0 {
        seq![]
    } else {
        let before = expired_upto(now, entries, n - 1);
        let e = entries[n - 1];
        if e.is_png && e.modified_ms is Some && expired_at(now, e.modified_ms->0) {
            before.push((n - 1) as usize)
        } else {
            before
        }
    }
}

/// The thumbnails among entries `0..n` that have not expired, with their times.
pub open spec fn alive_upto(now: i64, entries: Seq<CacheEntry>, n: int) -> Seq<(usize, i64)>
    decreases n,
{
    if n <= 0 {
        seq![]
    } else {
        let before = alive_upto(now, entries, n - 1);
        let e = entries[n - 1];
        if e.is_png && e.modified_ms is Some && !expired_at(now, e.modified_ms->0) {
            before.push(((n - 1) as usize, e.modified_ms->0))
        } else {
            before
        }
    }
}

/// Orders thumbnails by time.
pub open spec fn modified_key() -> spec_fn((usize, i64)) -> int {
    |x: (usize, i64)| x.1 as int
}

/// The thumbnails to remove: the expired ones, in the order found; then, when more than
/// `MAX_ENTRIES` remain, all but the newest `MAX_ENTRIES` (newest first, equal times in the
/// order found).
pub fn cleanup_plan(now_ms: i64, entries: &Vec<CacheEntry>) -> (r: Vec<usize>)
    ensures
        alive_upto(now_ms, entries@, entries@.len() as int).len() <= MAX_ENTRIES ==> r@
            == expired_upto(now_ms, entries@, entries@.len() as int),
        alive_upto(now_ms, entries@, entries@.len() as int).len() > MAX_ENTRIES ==> exists|
            sorted: Seq<(usize, i64)>,
        |
            stable_desc(sorted, alive_upto(now_ms, entries@, entries@.len() as int), modified_key())
                && r@ == expired_upto(now_ms, entries@, entries@.len() as int) + sorted.skip(
                MAX_ENTRIES as int,
            ).map_values(|x: (usize, i64)| x.0),
{
    let mut remove: Vec<usize> = Vec::new();
    let mut alive: Vec<(usize, i64)> = Vec::new();
    let mut i: usize = 0;
    while i < entries.len()
        invariant
            i <= entries@.len(),
            remove@ == expired_upto(now_ms, entries@, i as int),
            alive@ == alive_upto(now_ms, entries@, i as int),
        decreases entries.len() - i,
    {
        let e = entries[i];
        if e.is_png {
            match e.modified_ms {
                Some(m) => {
                    let expired = m > now_ms || (now_ms as i128) - (m as i128) > (TTL_SECS * 1000) as i128;
                    if expired {
                        remove.push(i);
                    } else {
                        alive.push((i, m));
                    }
                },
                None => {},
            }
        }
        i = i + 1;
    }
    if alive.len() > MAX_ENTRIES {
        // newest first; equal times keep their order
        let ghost all = alive@;
        let ghost key = modified_key();
        let mut sorted: Vec<(usize, i64)> = Vec::new();
        proof {
            assert(all.take(0) =~= Seq::<(usize, i64)>::empty());
        }
        let mut j: usize = 0;
        while j < alive.len()
            invariant
                j <= alive@.len(),
                all == alive@,
                key == modified_key(),
                stable_desc(sorted@, all.take(j as int), key),
                sorted@.len() == j,
            decreases alive.len() - j,
        {
            let x = alive[j];
            let mut p: usize = 0;
            while p < sorted.len() && sorted[p].1 >= x.1
                invariant
                    p <= sorted@.len(),
                    forall|a: int| 0 <= a < p ==> key(#[trigger] sorted@[a]) >= x.1,
                    key == modified_key(),
                decreases sorted.len() - p,
            {
                p = p + 1;
            }
            proof {
                lemma_insert_desc(sorted@, all.take(j as int), x, p as int, key);
                assert(all.take(j + 1) =~= all.take(j as int).push(x));
            }
            sorted.insert(p, x);
            j = j + 1;
        }
        assert(all.take(alive@.len() as int) =~= all);
        let ghost before = remove@;
        let mut k: usize = MAX_ENTRIES;
        assert(remove@ =~= before + sorted@.skip(MAX_ENTRIES as int).take(0).map_values(|x: (usize, i64)| x.0));
        while k < sorted.len()
            invariant
                MAX_ENTRIES <= k <= sorted@.len(),
                remove@ == before + sorted@.skip(MAX_ENTRIES as int).take(k - MAX_ENTRIES).map_values(
                    |x: (usize, i64)| x.0,
                ),
            decreases sorted.len() - k,
        {
            remove.push(sorted[k].0);
            proof {
                let tail = sorted@.skip(MAX_ENTRIES as int);
                assert(tail.take(k + 1 - MAX_ENTRIES) =~= tail.take(k - MAX_ENTRIES).push(sorted@[k as int]));
                assert(remove@ =~= before + tail.take(k + 1 - MAX_ENTRIES).map_values(|x: (usize, i64)| x.0));
            }
            k = k + 1;
        }
        proof {
            let tail = sorted@.skip(MAX_ENTRIES as int);
            assert(tail.take(tail.len() as int) =~= tail);
        }
    }
    remove
}

/// The bytes of a pixel buffer with the first and third byte of each whole group of 4
/// swapped (BGRA to RGBA); a trailing part group stays as it is.
pub open spec fn swap_red_blue(b: Seq<u8>) -> Seq<u8> {
    Seq::new(
        b.len(),
        |k: int|
            if k < b.len() - b.len() % 4 && k % 4 == 0 {
                b[k + 2]
            } else if k < b.len() - b.len() % 4 && k % 4 == 2 {
                b[k - 2]
            } else {
                b[k]
            },
    )
}

/// Swapping the first and third byte of each pixel twice gives the pixels back.
pub proof fn law_swap_red_blue_twice(b: Seq<u8>)
    ensures
        swap_red_blue(swap_red_blue(b)) == b,
{
    let once = swap_red_blue(b);
    assert(swap_red_blue(once) =~= b);
}

/// Turns BGRA pixels into RGBA pixels, in place.
pub fn bgra_to_rgba(pixels: &mut Vec<u8>)
    ensures
        final(pixels)@ == swap_red_blue(old(pixels)@),
{
    let ghost orig = pixels@;
    let n = pixels.len();
    let whole = n - n % 4;
    let mut i: usize = 0;
    while i < whole
        invariant
            n == orig.len(),
            whole == n - n % 4,
            pixels@.len() == n,
            i % 4 == 0,
            i <= whole,
            forall|k: int|
                0 <= k < n ==> #[trigger] pixels@[k] == if k < i {
                    swap_red_blue(orig)[k]
                } else {
                    orig[k]
                },
        decreases whole - i,
    {
        let b = pixels[i];
        let r = pixels[i + 2];
        pixels.set(i, r);
        pixels.set(i + 2, b);
        i = i + 4;
    }
    assert(pixels@ =~= swap_red_blue(orig));
}

/// The PNG file of a `width` by `height` RGBA image (8 bits per channel) whose pixels are
/// the first `4 * width * height` bytes of `rgba`; `None` when no such file is made.
pub uninterp spec fn png_rgba8(width: u32, height: u32, rgba: Seq<u8>) -> Option<Seq<u8>>;

/// `image::RgbaImage::from_raw(width, height, rgba)`, then `write_to` a `Cursor<Vec<u8>>` as
/// `ImageFormat::Png`: the PNG file of the image, or `None` when `from_raw` refuses `rgba`
/// (it holds fewer than `4 * width * height` bytes) or the encoder reports an error. Both
/// depend on the arguments alone; which images the encoder refuses beyond short buffers, and
/// the PNG bytes, are only named here. They come back in a `Vec`, which std never lets grow
/// past `isize::MAX` bytes.
#[verifier::external_body]
fn encode_png_rgba8(width: u32, height: u32, rgba: Vec<u8>) -> (r: Option<Vec<u8>>)
    ensures
        r matches Some(p) ==> png_rgba8(width, height, rgba@) == Some(p@) && p@.len() <= isize::MAX,
        r is None ==> png_rgba8(width, height, rgba@) is None,
        rgba@.len() < 4 * width * height ==> r is None,
{
    let image = image::RgbaImage::from_raw(width, height, rgba)?;
    let mut file = std::io::Cursor::new(Vec::new());
    image.write_to(&mut file, image::ImageFormat::Png).ok()?;
    Some(file.into_inner())
}

/// Whether `r` is the error of a thumbnail that could not be made.
pub open spec fn is_thumbnail_failure<T>(r: Result<T, PlatformError>) -> bool {
    r matches Err(PlatformError::ApiError(m)) && m@ == "Failed to capture thumbnail"@
}

proof fn lemma_base64_fits(n: nat)
    requires
        n <= isize::MAX,
    ensures
        base64_len(n) <= usize::MAX,
{
    assert(isize::MAX as int * 2 + 1 == usize::MAX as int);
    assert(4 * (n / 3) <= n + n / 3 + n / 3 + 1) by (nonlinear_arith);
}

/// The PNG file of a captured `width` by `height` bitmap whose pixels are BGRA bytes; the
/// error "Failed to capture thumbnail" when no PNG comes out (always so when `bgra` holds
/// fewer than `4 * width * height` bytes).
pub fn thumbnail_png(width: u32, height: u32, bgra: Vec<u8>) -> (r: Result<Vec<u8>, PlatformError>)
    ensures
        (r is Ok) == (png_rgba8(width, height, swap_red_blue(bgra@)) is Some),
        bgra@.len() < 4 * width * height ==> r is Err,
        r matches Ok(p) ==> png_rgba8(width, height, swap_red_blue(bgra@)) == Some(p@) && p@.len() <= isize::MAX,
        r is Err ==> is_thumbnail_failure(r),
{
    let mut pixels = bgra;
    bgra_to_rgba(&mut pixels);
    match encode_png_rgba8(width, height, pixels) {
        Some(p) => Ok(p),
        None => {
            let r = Err(PlatformError::ApiError(String::from_str("Failed to capture thumbnail")));
            proof {
                reveal_strlit("Failed to capture thumbnail");
            }
            r
        },
    }
}

/// The PNG data URL of a captured `width` by `height` bitmap whose pixels are BGRA bytes; the
/// error "Failed to capture thumbnail" when no PNG comes out.
pub fn thumbnail_data_url(width: u32, height: u32, bgra: Vec<u8>) -> (r: Result<String, PlatformError>)
    ensures
        (r is Ok) == (png_rgba8(width, height, swap_red_blue(bgra@)) is Some),
        bgra@.len() < 4 * width * height ==> r is Err,
        r matches Ok(u) ==> u@ == png_data_prefix() + base64_standard(
            png_rgba8(width, height, swap_red_blue(bgra@))->Some_0,
        ),
        r is Err ==> is_thumbnail_failure(r),
{
    match thumbnail_png(width, height, bgra) {
        Ok(p) => {
            proof {
                lemma_base64_fits(p@.len());
            }
            Ok(encode_data_url(p.as_slice()))
        },
        Err(e) => Err(e),
    }
}

} // verus!
