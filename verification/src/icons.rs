//! Application icons for tracked items: the per-process cache, the pixel
//! fix-up of a 32-bit icon bitmap, and its encoding as a PNG data URL.

use crate::text::{chars_eq, chars_of, lower, lowercase, push_str, string_of, trim, trim_chars};
use base64::Engine;
use vstd::prelude::*;

verus! {

// ─── Cache ──────────────────────────────────────────────────

/// Cache key of a process name: trimmed and lowercased.
pub open spec fn icon_key_of(process_name: Seq<char>) -> Seq<char> {
    lowercase(trim(process_name))
}

/// Cache key of a process name: trimmed and lowercased.
pub fn icon_key(process_name: &str) -> (r: String)
    ensures
        r@ == icon_key_of(process_name@),
{
    let t = trim_chars(&chars_of(process_name));
    string_of(&lower(&t))
}

/// Icons by process key, misses included (`None`), so periodic rescans
/// never extract twice.
#[derive(Debug)]
pub struct IconCache {
    entries: Vec<(String, Option<String>)>,
}

/// Where `key` is cached.
pub open spec fn cache_index(entries: Seq<(String, Option<String>)>, key: Seq<char>) -> Option<
    int,
> {
    if exists|i: int| 0 <= i < entries.len() && entries[i].0@ == key {
        Some(choose|i: int| 0 <= i < entries.len() && entries[i].0@ == key)
    } else {
        None
    }
}

/// A lookup after a store finds what was stored: pushing `(k, icon)` for a
/// key not cached yet makes every later lookup of that key find `icon`, so
/// a process whose icon (or miss) was cached is never extracted again and
/// keeps its answer.
pub proof fn lemma_lookup_after_store(
    entries: Seq<(String, Option<String>)>,
    k: String,
    icon: Option<String>,
)
    requires
        cache_index(entries, k@) is None,
    ensures
        cache_index(entries.push((k, icon)), k@) == Some(entries.len() as int),
        entries.push((k, icon))[entries.len() as int].1 == icon,
{
    let e2 = entries.push((k, icon));
    let n = entries.len() as int;
    assert(e2[n].0@ == k@);
    let c = choose|c: int| 0 <= c < e2.len() && e2[c].0@ == k@;
    assert(c == n) by {
        if c < n {
            assert(e2[c] == entries[c]);
        }
    }
}

impl IconCache {
    /// The cached keys with their icons (`None`: a cached miss), in the
    /// order they were stored.
    pub closed spec fn entries_view(&self) -> Seq<(String, Option<String>)> {
        self.entries@
    }

    /// Each key is cached once.
    #[verifier::type_invariant]
    spec fn keys_distinct(&self) -> bool {
        forall|i: int, j: int|
            0 <= i < j < self.entries@.len() ==> #[trigger] self.entries@[i].0@
                != #[trigger] self.entries@[j].0@
    }

    /// An empty cache.
    pub fn new() -> (r: Self)
        ensures
            r.entries_view().len() == 0,
    {
        IconCache { entries: Vec::new() }
    }

    /// How many keys are cached.
    pub fn len(&self) -> (r: usize)
        ensures
            r == self.entries_view().len(),
    {
        self.entries.len()
    }

    /// The cached icon of `key`: `Some(icon)` when cached (a cached miss is
    /// `Some(None)`), `None` when not cached.
    pub fn get(&self, key: &str) -> (r: Option<Option<String>>)
        ensures
            match cache_index(self.entries_view(), key@) {
                Some(i) => r == Some(self.entries_view()[i].1),
                None => r is None,
            },
    {
        proof {
            use_type_invariant(self);
        }
        let k = chars_of(key);
        let mut i: usize = 0;
        while i < self.entries.len()
            invariant
                i <= self.entries@.len(),
                self.keys_distinct(),
                k@ == key@,
                forall|j: int| 0 <= j < i ==> self.entries@[j].0@ != key@,
            decreases self.entries.len() - i,
        {
            if chars_eq(&chars_of(self.entries[i].0.as_str()), &k) {
                proof {
                    let c = choose|c: int|
                        0 <= c < self.entries@.len() && self.entries@[c].0@ == key@;
                    assert(c == i) by {
                        if c > i {
                            assert(self.entries@[i as int].0@ != self.entries@[c].0@);
                        }
                    }
                }
                return Some(crate::platform::copy_opt(&self.entries[i].1));
            }
            i += 1;
        }
        None
    }

    /// Remember the icon (or miss) of a key that is not cached yet.
    pub fn insert(&mut self, key: String, icon: Option<String>)
        requires
            cache_index(old(self).entries_view(), key@) is None,
        ensures
            final(self).entries_view() == old(self).entries_view().push((key, icon)),
            cache_index(final(self).entries_view(), key@) is Some,
    {
        proof {
            use_type_invariant(&*self);
        }
        let ghost old_entries = self.entries@;
        let ghost kv = key@;
        let mut entries = Vec::new();
        std::mem::swap(&mut entries, &mut self.entries);
        entries.push((key, icon));
        proof {
            assert forall|i: int, j: int|
                0 <= i < j < entries@.len() implies #[trigger] entries@[i].0@
                != #[trigger] entries@[j].0@ by {
                if j == old_entries.len() {
                    assert(entries@[i] == old_entries[i]);
                    assert(entries@[j].0@ == kv);
                }
            }
            assert(entries@[old_entries.len() as int].0@ == kv);
        }
        self.entries = entries;
    }
}

/// Data URL of the given process's icon (e.g. "chrome.exe"). A cached
/// result (hit or miss) is returned as is; otherwise `extract` is asked once
/// with the cache key and its answer is cached and returned.
pub fn process_icon<F: FnOnce(String) -> Option<String>>(
    cache: &mut IconCache,
    process_name: &str,
    extract: F,
) -> (r: Option<String>)
    requires
        forall|k: String| extract.requires((k,)),
    ensures
        cache_index(final(cache).entries_view(), icon_key_of(process_name@)) is Some,
        match cache_index(old(cache).entries_view(), icon_key_of(process_name@)) {
            Some(i) => r == old(cache).entries_view()[i].1 && final(cache).entries_view() == old(
                cache,
            ).entries_view(),
            None => exists|k: String|
                k@ == icon_key_of(process_name@) && extract.ensures((k,), r)
                    && final(cache).entries_view() == old(cache).entries_view().push((k, r)),
        },
{
    let key = icon_key(process_name);
    match cache.get(key.as_str()) {
        Some(hit) => hit,
        None => {
            let k2 = key.clone();
            let icon = extract(k2);
            let kept = crate::platform::copy_opt(&icon);
            cache.insert(key, kept);
            icon
        },
    }
}

/// The positions, first to last, of the running processes whose image name
/// is `image_name` up to case: the candidates whose executable path is
/// looked up, in this order, when an icon has to be extracted.
pub fn processes_named(names: &Vec<String>, image_name: &str) -> (r: Vec<usize>)
    ensures
        forall|j: int|
            0 <= j < r@.len() ==> (#[trigger] r@[j]) < names@.len() && lowercase(
                names@[r@[j] as int]@,
            ) == image_name@,
        forall|j: int, k: int| 0 <= j < k < r@.len() ==> #[trigger] r@[j] < #[trigger] r@[k],
        forall|i: int|
            0 <= i < names@.len() && lowercase(#[trigger] names@[i]@) == image_name@ ==> r@.contains(
                i as usize,
            ),
{
    let target = chars_of(image_name);
    let mut out: Vec<usize> = Vec::new();
    let mut i: usize = 0;
    while i < names.len()
        invariant
            i <= names@.len(),
            target@ == image_name@,
            forall|j: int|
                0 <= j < out@.len() ==> (#[trigger] out@[j]) < i && lowercase(
                    names@[out@[j] as int]@,
                ) == image_name@,
            forall|j: int, k: int| 0 <= j < k < out@.len() ==> #[trigger] out@[j] < #[trigger] out@[k],
            forall|m: int|
                0 <= m < i && lowercase(#[trigger] names@[m]@) == image_name@ ==> out@.contains(
                    m as usize,
                ),
        decreases names.len() - i,
    {
        if chars_eq(&lower(&chars_of(names[i].as_str())), &target) {
            let ghost before = out@;
            out.push(i);
            proof {
                assert(out@[before.len() as int] == i);
                assert forall|m: int|
                    0 <= m < i + 1 && lowercase(#[trigger] names@[m]@) == image_name@ implies out@.contains(
                    m as usize,
                ) by {
                    if m < i {
                        let x = choose|x: int| 0 <= x < before.len() && before[x] == m as usize;
                        assert(out@[x] == m as usize);
                    }
                }
            }
        }
        i += 1;
    }
    out
}

// ─── Pixels ─────────────────────────────────────────────────

/// Some pixel of a 32-bit BGRA buffer has a non-zero alpha.
pub open spec fn has_alpha(buf: Seq<u8>) -> bool {
    exists|p: int| 0 <= p < buf.len() / 4 && #[trigger] buf[4 * p + 3] != 0
}

/// RGBA bytes of a BGRA buffer: blue and red swapped in every whole pixel,
/// and when no pixel has alpha (legacy icons store none but are opaque)
/// every alpha set to 255. Bytes after the last whole pixel stay.
pub open spec fn rgba_of(buf: Seq<u8>) -> Seq<u8> {
    Seq::new(
        buf.len(),
        |i: int|
            if i >= (buf.len() / 4) * 4 {
                buf[i]
            } else if i % 4 == 0 {
                buf[i + 2]
            } else if i % 4 == 2 {
                buf[i - 2]
            } else if i % 4 == 3 && !has_alpha(buf) {
                255u8
            } else {
                buf[i]
            },
    )
}

/// Turn a top-down 32-bit BGRA icon bitmap into RGBA, treating a bitmap
/// without any alpha as fully opaque.
pub fn bgra_to_rgba(buf: &mut Vec<u8>)
    ensures
        final(buf)@ == rgba_of(old(buf)@),
{
    let ghost orig = buf@;
    let n = buf.len() / 4;
    let mut alpha = false;
    let mut p: usize = 0;
    while p < n
        invariant
            p <= n == orig.len() / 4,
            buf@ == orig,
            alpha == exists|q: int| 0 <= q < p && #[trigger] orig[4 * q + 3] != 0,
        decreases n - p,
    {
        assert(4 * p + 3 < orig.len()) by (nonlinear_arith)
            requires
                p < n,
                n == orig.len() / 4,
        ;
        assert(orig.len() == buf.len());
        assert(4 * p + 3 < buf.len());
        if buf[4 * p + 3] != 0 {
            alpha = true;
        }
        p += 1;
    }
    assert(alpha == has_alpha(orig));
    let mut q: usize = 0;
    while q < n
        invariant
            q <= n == orig.len() / 4,
            buf@.len() == orig.len(),
            alpha == has_alpha(orig),
            forall|i: int| 0 <= i < 4 * q ==> #[trigger] buf@[i] == rgba_of(orig)[i],
            forall|i: int| 4 * q <= i < orig.len() ==> #[trigger] buf@[i] == orig[i],
        decreases n - q,
    {
        assert(4 * q + 3 < orig.len()) by (nonlinear_arith)
            requires
                q < n,
                n == orig.len() / 4,
        ;
        assert(orig.len() == buf.len());
        assert(4 * q + 3 < buf.len());
        let b = buf[4 * q];
        let r = buf[4 * q + 2];
        buf.set(4 * q, r);
        buf.set(4 * q + 2, b);
        if !alpha {
            buf.set(4 * q + 3, 255);
        }
        proof {
            assert forall|i: int| 0 <= i < 4 * (q + 1) implies #[trigger] buf@[i] == rgba_of(orig)[i] by {
                if i >= 4 * q {
                    assert(i % 4 == i - 4 * q);
                    assert(i < (orig.len() / 4) * 4);
                }
            }
        }
        q += 1;
    }
    assert(buf@ =~= rgba_of(orig));
}

// ─── Encoding ───────────────────────────────────────────────

/// The encoder's size arithmetic for an RGBA image of this size fits in a
/// `usize`: rows of `4 * width + 1` bytes, `height` of them.
pub open spec fn png_size_fits(width: u32, height: u32) -> bool {
    (4 * (width as int) + 1) * (height as int) <= usize::MAX
}

/// The eight bytes every PNG file starts with.
pub open spec fn png_signature() -> Seq<u8> {
    seq![137u8, 80u8, 78u8, 71u8, 13u8, 10u8, 26u8, 10u8]
}

/// The PNG file that `png` 0.17 writes for an 8-bit RGBA image.
pub uninterp spec fn png_rgba8(width: u32, height: u32, rgba: Seq<u8>) -> Seq<u8>;

/// The standard base64 alphabet: `A-Z`, `a-z`, `0-9`, `+`, `/` for the
/// values 0 to 63.
pub open spec fn base64_digit(v: int) -> char {
    if v < 26 {
        (65 + v) as char
    } else if v < 52 {
        (71 + v) as char
    } else if v < 62 {
        (v - 4) as char
    } else if v == 62 {
        '+'
    } else {
        '/'
    }
}

/// Standard base64 with padding (RFC 4648): every three bytes become four
/// digits of six bits each; a final one or two bytes become two or three
/// digits and `=` padding up to four.
pub open spec fn base64_standard(bytes: Seq<u8>) -> Seq<char>
    decreases bytes.len(),
{
    if bytes.len() == 0 {
        Seq::<char>::empty()
    } else if bytes.len() == 1 {
        let x = bytes[0] as int;
        seq![base64_digit(x / 4), base64_digit((x % 4) * 16), '=', '=']
    } else if bytes.len() == 2 {
        let x = bytes[0] as int;
        let y = bytes[1] as int;
        seq![base64_digit(x / 4), base64_digit((x % 4) * 16 + y / 16), base64_digit((y % 16) * 4), '=']
    } else {
        let x = bytes[0] as int;
        let y = bytes[1] as int;
        let z = bytes[2] as int;
        seq![
            base64_digit(x / 4),
            base64_digit((x % 4) * 16 + y / 16),
            base64_digit((y % 16) * 4 + z / 64),
            base64_digit(z % 64),
        ] + base64_standard(bytes.skip(3))
    }
}

/// Encode an 8-bit RGBA image as PNG (`png::Encoder` with `ColorType::Rgba`
/// and `BitDepth::Eight`, header then image data, into memory). The encoder
/// refuses a zero width or height (`write_header`) and image data whose
/// length is not `4 * width * height` (`write_image_data`); otherwise it only
/// writes into the in-memory buffer, which cannot fail, and what it writes
/// is named `png_rgba8`; it starts with the PNG signature, which the
/// header writes first (`Writer::init`). The encoder computes the row length (`4 * width`,
/// plus one filter byte) and the image size in `usize` without checking
/// overflow, so the image must be small enough for those products.
#[verifier::external_body]
fn png_encode_rgba8(width: u32, height: u32, rgba: &[u8]) -> (r: Option<Vec<u8>>)
    requires
        png_size_fits(width, height),
    ensures
        r matches Some(bytes) ==> bytes@ == png_rgba8(width, height, rgba@),
        r matches Some(bytes) ==> bytes@.len() >= 8 && bytes@.subrange(0, 8) == png_signature(),
        r is Some <==> (width > 0 && height > 0 && rgba@.len() == 4 * (width as int) * (
        height as int)),
{
    let mut png = Vec::new();
    {
        let mut encoder = png::Encoder::new(&mut png, width, height);
        encoder.set_color(png::ColorType::Rgba);
        encoder.set_depth(png::BitDepth::Eight);
        let mut writer = encoder.write_header().ok()?;
        writer.write_image_data(rgba).ok()?;
    }
    Some(png)
}

/// `base64::engine::general_purpose::STANDARD.encode`: standard base64 with
/// padding, as `base64_standard` spells out.
#[verifier::external_body]
fn base64_encode(bytes: &[u8]) -> (r: String)
    ensures
        r@ == base64_standard(bytes@),
{
    base64::engine::general_purpose::STANDARD.encode(bytes)
}

/// The data URL of a PNG file: `data:image/png;base64,` and the base64 of
/// its bytes.
pub fn png_data_url(png: &[u8]) -> (r: String)
    ensures
        r@ == "data:image/png;base64,"@ + base64_standard(png@),
{
    let b64 = base64_encode(png);
    let mut out: Vec<char> = Vec::new();
    push_str(&mut out, "data:image/png;base64,");
    push_str(&mut out, b64.as_str());
    string_of(&out)
}

/// A PNG data URL for an 8-bit RGBA image, or `None` when the image is
/// empty, too large for the encoder's size arithmetic, or the pixel data is
/// not `4 * width * height` bytes long.
pub fn encode_png(width: u32, height: u32, rgba: &[u8]) -> (r: Option<String>)
    ensures
        r matches Some(url) ==> url@ == "data:image/png;base64,"@ + base64_standard(
            png_rgba8(width, height, rgba@),
        ),
        r is Some ==> png_rgba8(width, height, rgba@).len() >= 8 && png_rgba8(
            width,
            height,
            rgba@,
        ).subrange(0, 8) == png_signature(),
        r is Some <==> (width > 0 && height > 0 && png_size_fits(width, height) && rgba@.len()
            == 4 * (width as int) * (height as int)),
{
    let row: u128 = 4 * (width as u128) + 1;
    let h: u128 = height as u128;
    assert(row * h <= 0x4_0000_0001 * 0xffff_ffff) by (nonlinear_arith)
        requires
            row <= 0x4_0000_0001,
            h <= 0xffff_ffff,
    ;
    let size: u128 = row * h;
    if size > usize::MAX as u128 {
        return None;
    }
    let png = png_encode_rgba8(width, height, rgba)?;
    Some(png_data_url(png.as_slice()))
}

} // verus!
