use vstd::prelude::*;

use crate::token::{chars_of, push_all, string_of};

verus! {

/// Bytes taken by one RGBA8 pixel.
pub const BYTES_PER_PIXEL: usize = 4;

/// A decoded RGBA8 image: row-major, no padding between rows.
pub struct SourceImage {
    pub width: usize,
    pub height: usize,
    pub pixels: Vec<u8>,
}

/// Which dimensional constraint an image broke.
#[derive(Debug, Clone, Copy, PartialEq, Eq)]
pub enum MismatchReason {
    /// The image's height is not the atlas's fixed height.
    HeightMismatch { expected: usize, got: usize },
    /// The image is not square.
    NotSquare { width: usize, height: usize },
    /// The pixel buffer's length is not `width * height * 4`.
    BufferLength { width: usize, height: usize, got: usize },
}

/// The character of decimal digit `d`.
pub open spec fn digit_char(d: nat) -> char {
    if d == 0 {
        '0'
    } else if d == 1 {
        '1'
    } else if d == 2 {
        '2'
    } else if d == 3 {
        '3'
    } else if d == 4 {
        '4'
    } else if d == 5 {
        '5'
    } else if d == 6 {
        '6'
    } else if d == 7 {
        '7'
    } else if d == 8 {
        '8'
    } else {
        '9'
    }
}

/// `n` written in decimal, without leading zeros.
pub open spec fn decimal(n: nat) -> Seq<char>
    decreases n,
{
    if n < 10 {
        seq![digit_char(n)]
    } else {
        decimal(n / 10).push(digit_char(n % 10))
    }
}

/// The text that describes a rejection.
pub open spec fn reason_text(r: MismatchReason) -> Seq<char> {
    match r {
        MismatchReason::HeightMismatch { expected, got } => "height mismatch: expected "@
            + decimal(expected as nat) + ", got "@ + decimal(got as nat),
        MismatchReason::NotSquare { width, height } => "not square: width "@ + decimal(
            width as nat,
        ) + ", height "@ + decimal(height as nat),
        MismatchReason::BufferLength { width, height, got } => "buffer length mismatch: "@
            + decimal(width as nat) + "x"@ + decimal(height as nat) + " image, got "@ + decimal(
            got as nat,
        ) + " bytes"@,
    }
}

/// The character of decimal digit `d`.
fn digit(d: usize) -> (c: char)
    requires
        d < 10,
    ensures
        c == digit_char(d as nat),
{
    match d {
        0 => '0',
        1 => '1',
        2 => '2',
        3 => '3',
        4 => '4',
        5 => '5',
        6 => '6',
        7 => '7',
        8 => '8',
        _ => '9',
    }
}

/// `n` written in decimal.
fn decimal_chars(n: usize) -> (r: Vec<char>)
    ensures
        r@ == decimal(n as nat),
    decreases n,
{
    if n < 10 {
        let mut v: Vec<char> = Vec::new();
        v.push(digit(n));
        assert(v@ =~= seq![digit_char(n as nat)]);
        v
    } else {
        let mut v = decimal_chars(n / 10);
        v.push(digit(n % 10));
        v
    }
}

impl MismatchReason {
    /// Describes the rejection.
    pub fn message(&self) -> (r: String)
        ensures
            r@ == reason_text(*self),
    {
        let mut out: Vec<char> = Vec::new();
        match *self {
            MismatchReason::HeightMismatch { expected, got } => {
                push_all(&mut out, &chars_of("height mismatch: expected "));
                push_all(&mut out, &decimal_chars(expected));
                push_all(&mut out, &chars_of(", got "));
                push_all(&mut out, &decimal_chars(got));
            },
            MismatchReason::NotSquare { width, height } => {
                push_all(&mut out, &chars_of("not square: width "));
                push_all(&mut out, &decimal_chars(width));
                push_all(&mut out, &chars_of(", height "));
                push_all(&mut out, &decimal_chars(height));
            },
            MismatchReason::BufferLength { width, height, got } => {
                push_all(&mut out, &chars_of("buffer length mismatch: "));
                push_all(&mut out, &decimal_chars(width));
                push_all(&mut out, &chars_of("x"));
                push_all(&mut out, &decimal_chars(height));
                push_all(&mut out, &chars_of(" image, got "));
                push_all(&mut out, &decimal_chars(got));
                push_all(&mut out, &chars_of(" bytes"));
            },
        }
        proof {
            assert(out@ =~= reason_text(*self));
        }
        string_of(&out)
    }
}

/// Why a build failed.
#[derive(Debug, Clone, Copy, PartialEq, Eq)]
pub enum BuildError {
    /// The image at `index` was rejected for `reason`.
    DimensionMismatch { index: usize, reason: MismatchReason },
    /// No image and no height to start from.
    EmptyInput,
    /// The image at `index` could not be decoded.
    DecodeFailed { index: usize },
    /// The finished atlas could not be encoded.
    EncodeFailed,
}

/// Row `r` of a row-major buffer whose rows are `stride` bytes long.
pub open spec fn row_of(buf: Seq<u8>, stride: int, r: int) -> Seq<u8> {
    buf.subrange(r * stride, (r + 1) * stride)
}

/// The first `n` rows of `a` and of `b`, each row of `a` followed by the same row of `b`.
pub open spec fn interleave(a: Seq<u8>, sa: int, b: Seq<u8>, sb: int, n: nat) -> Seq<u8>
    decreases n,
{
    if n == 0 {
        Seq::empty()
    } else {
        interleave(a, sa, b, sb, (n - 1) as nat) + row_of(a, sa, n - 1) + row_of(
            b,
            sb,
            n - 1,
        )
    }
}

/// The reason an image cannot join an atlas of the given height, if any.
/// Height is checked first, then squareness, then the buffer's length.
pub open spec fn rejection(img: SourceImage, height: usize) -> Option<MismatchReason> {
    if img.height != height {
        Some(MismatchReason::HeightMismatch { expected: height, got: img.height })
    } else if img.width != img.height {
        Some(MismatchReason::NotSquare { width: img.width, height: img.height })
    } else if img.pixels@.len() != img.width * img.height * 4 {
        Some(MismatchReason::BufferLength { width: img.width, height: img.height, got: img.pixels@.len() as usize })
    } else {
        None
    }
}

/// Sum of the widths of `images`.
pub open spec fn total_width(images: Seq<SourceImage>) -> nat
    decreases images.len(),
{
    if images.len() == 0 {
        0
    } else {
        (total_width(images.drop_last()) + images.last().width) as nat
    }
}

/// Sum of the pixel buffer lengths of `images`.
pub open spec fn total_bytes(images: Seq<SourceImage>) -> nat
    decreases images.len(),
{
    if images.len() == 0 {
        0
    } else {
        total_bytes(images.drop_last()) + images.last().pixels@.len()
    }
}

/// Row `r` of each of `images`, concatenated in order.
pub open spec fn tiled_row(images: Seq<SourceImage>, r: int) -> Seq<u8>
    decreases images.len(),
{
    if images.len() == 0 {
        Seq::empty()
    } else {
        tiled_row(images.drop_last(), r) + row_of(
            images.last().pixels@,
            images.last().width * 4,
            r,
        )
    }
}

/// The atlas height a build uses: the target if given, else the first image's height.
pub open spec fn fixed_height(images: Seq<SourceImage>, target: Option<usize>) -> Option<usize> {
    match target {
        Some(h) => Some(h),
        None => if images.len() > 0 {
            Some(images[0].height)
        } else {
            None
        },
    }
}

/// What a build returns for the given images and target height: `EmptyInput` when no
/// height can be fixed; else the first rejected image, or the atlas that tiles them all.
pub open spec fn build_result(
    images: Seq<SourceImage>,
    target: Option<usize>,
    res: Result<Atlas, BuildError>,
) -> bool {
    match fixed_height(images, target) {
        None => res == Err::<Atlas, BuildError>(BuildError::EmptyInput),
        Some(h) => match res {
            Ok(atlas) => {
                &&& forall|i: int| 0 <= i < images.len() ==> #[trigger] rejection(images[i], h) is None
                &&& atlas.wf()
                &&& atlas.height == h
                &&& atlas.width == total_width(images)
                &&& atlas.buffer@.len() == total_bytes(images)
                &&& forall|k: int| 0 <= k < h ==> #[trigger] atlas.spec_row(k) == tiled_row(images, k)
            },
            Err(BuildError::DimensionMismatch { index, reason }) => {
                &&& index < images.len()
                &&& rejection(images[index as int], h) == Some(reason)
                &&& forall|i: int| 0 <= i < index ==> #[trigger] rejection(images[i], h) is None
            },
            Err(_) => false,
        },
    }
}

/// What an append returns for a given rejection verdict.
pub open spec fn append_result(rejected: Option<MismatchReason>) -> Result<(), MismatchReason> {
    match rejected {
        Some(e) => Err(e),
        None => Ok(()),
    }
}

/// `after` is `before` with `image` tiled to the right of it, row by row.
pub open spec fn appended(before: Atlas, after: Atlas, image: SourceImage) -> bool {
    &&& after.height == before.height
    &&& after.width == before.width + image.width
    &&& after.buffer@.len() == before.buffer@.len() + image.pixels@.len()
    &&& forall|k: int|
        0 <= k < after.height ==> #[trigger] after.spec_row(k) == before.spec_row(k) + row_of(
            image.pixels@,
            image.width * 4,
            k,
        )
}

/// Images tiled left to right into one RGBA8 buffer of `height` rows.
pub struct Atlas {
    pub buffer: Vec<u8>,
    pub width: usize,
    pub height: usize,
}

impl Atlas {
    /// The buffer holds exactly `width * height` pixels.
    pub open spec fn wf(&self) -> bool {
        &&& self.buffer@.len() == self.width * self.height * 4
        &&& self.width * 4 <= usize::MAX
    }

    /// Row `r` of the atlas.
    pub open spec fn spec_row(&self, r: int) -> Seq<u8> {
        row_of(self.buffer@, self.width * 4, r)
    }

    /// An empty atlas of the given height.
    pub fn new(height: usize) -> (a: Atlas)
        ensures
            a.wf(),
            a.width == 0,
            a.height == height,
            a.buffer@.len() == 0,
    {
        Atlas { buffer: Vec::new(), width: 0, height }
    }

    /// Tiles `pixels`, a square image of side `size`, right of the current contents.
    fn tile_rows(&mut self, pixels: &Vec<u8>, size: usize)
        requires
            old(self).wf(),
            size == old(self).height,
            pixels@.len() == size * size * 4,
            old(self).buffer@.len() + pixels@.len() <= usize::MAX,
        ensures
            final(self).wf(),
            final(self).height == old(self).height,
            final(self).width == old(self).width + size,
            final(self).buffer@.len() == old(self).buffer@.len() + pixels@.len(),
            forall|k: int|
                0 <= k < final(self).height ==> #[trigger] final(self).spec_row(k) == old(self).spec_row(
                    k,
                ) + row_of(pixels@, size * 4, k),
    {
        let h = self.height;
        let w = self.width;
        let ghost a = self.buffer@;
        let ghost b = pixels@;
        assert(size * 4 <= usize::MAX) by (nonlinear_arith)
            requires
                size * size * 4 <= usize::MAX,
        ;
        let sa: usize = w * 4;
        let sb: usize = size * 4;
        assert(a.len() == h * sa) by (nonlinear_arith)
            requires
                a.len() == w * h * 4,
                sa == w * 4,
        ;
        assert(b.len() == h * sb) by (nonlinear_arith)
            requires
                b.len() == size * size * 4,
                sb == size * 4,
                h == size,
        ;
        let mut out: Vec<u8> = Vec::new();
        let mut r: usize = 0;
        while r < h
            invariant
                r <= h,
                self.buffer@ == a,
                self.width == w,
                self.height == h,
                pixels@ == b,
                a.len() == h * sa,
                b.len() == h * sb,
                a.len() + b.len() <= usize::MAX,
                out@ == interleave(a, sa as int, b, sb as int, r as nat),
            decreases h - r,
        {
            assert(r * sa + sa <= h * sa && r * sb + sb <= h * sb) by (nonlinear_arith)
                requires
                    r < h,
            ;
            assert((r + 1) * sa == r * sa + sa && (r + 1) * sb == r * sb + sb) by (nonlinear_arith);
            let ghost before = out@;
            let start_a: usize = r * sa;
            let mut j: usize = 0;
            while j < sa
                invariant
                    j <= sa,
                    start_a == r * sa,
                    start_a + sa <= a.len(),
                    (r + 1) * sa == start_a + sa,
                    a.len() <= usize::MAX,
                    self.buffer@ == a,
                    out@ == before + row_of(a, sa as int, r as int).subrange(0, j as int),
                decreases sa - j,
            {
                out.push(self.buffer[start_a + j]);
                j = j + 1;
                assert(out@ =~= before + row_of(a, sa as int, r as int).subrange(0, j as int));
            }
            assert(row_of(a, sa as int, r as int).subrange(0, sa as int) =~= row_of(
                a,
                sa as int,
                r as int,
            ));
            let ghost mid = out@;
            let start_b: usize = r * sb;
            j = 0;
            while j < sb
                invariant
                    j <= sb,
                    start_b == r * sb,
                    start_b + sb <= b.len(),
                    (r + 1) * sb == start_b + sb,
                    b.len() <= usize::MAX,
                    pixels@ == b,
                    out@ == mid + row_of(b, sb as int, r as int).subrange(0, j as int),
                decreases sb - j,
            {
                out.push(pixels[start_b + j]);
                j = j + 1;
                assert(out@ =~= mid + row_of(b, sb as int, r as int).subrange(0, j as int));
            }
            assert(row_of(b, sb as int, r as int).subrange(0, sb as int) =~= row_of(
                b,
                sb as int,
                r as int,
            ));
            r = r + 1;
            assert(out@ =~= interleave(a, sa as int, b, sb as int, r as nat));
        }
        proof {
            lemma_interleave(a, sa as int, b, sb as int, h as nat);
            assert(w * 4 + size * 4 == (w + size) * 4);
            assert((w + size) * h * 4 == h * (sa + sb)) by (nonlinear_arith)
                requires
                    sa == w * 4,
                    sb == size * 4,
            ;
            assert(h * (sa + sb) == h * sa + h * sb) by (nonlinear_arith);
            assert((w + size) * 4 <= usize::MAX) by (nonlinear_arith)
                requires
                    h == size,
                    w * 4 <= usize::MAX,
                    h * (sa + sb) <= usize::MAX,
                    sa == w * 4,
                    sb == size * 4,
            ;
        }
        self.buffer = out;
        self.width = w + size;
    }

    /// Tiles `image` to the right of the atlas. Fails, leaving the atlas as it was,
    /// when the image's height is not the atlas's, when it is not square, or when
    /// its buffer does not hold `width * height` RGBA8 pixels.
    pub fn append(&mut self, image: &SourceImage) -> (r: Result<(), MismatchReason>)
        requires
            old(self).wf(),
            old(self).buffer@.len() + image.pixels@.len() <= usize::MAX,
        ensures
            final(self).wf(),
            r == append_result(rejection(*image, old(self).height)),
            r is Err ==> *final(self) == *old(self),
            r is Ok ==> appended(*old(self), *final(self), *image),
    {
        if image.height != self.height {
            return Err(MismatchReason::HeightMismatch { expected: self.height, got: image.height });
        }
        if image.width != image.height {
            return Err(MismatchReason::NotSquare { width: image.width, height: image.height });
        }
        let expected = match image.width.checked_mul(image.height) {
            Some(area) => area.checked_mul(BYTES_PER_PIXEL),
            None => None,
        };
        let len = image.pixels.len();
        let fits = match expected {
            Some(e) => e == len,
            None => false,
        };
        if !fits {
            proof {
                if expected is None {
                    assert(image.width * image.height * 4 > usize::MAX) by (nonlinear_arith)
                        requires
                            image.width * image.height > usize::MAX || (image.width
                                * image.height <= usize::MAX && image.width * image.height * 4
                                > usize::MAX),
                    ;
                }
            }
            return Err(
                MismatchReason::BufferLength { width: image.width, height: image.height, got: len },
            );
        }
        self.tile_rows(&image.pixels, image.width);
        Ok(())
    }

    /// Tiles a square image of side `size`, given as its RGBA8 `buffer`, to the right
    /// of the atlas; fails as `append` does.
    pub fn append_image_buffer(&mut self, buffer: Vec<u8>, size: usize) -> (r: Result<
        (),
        MismatchReason,
    >)
        requires
            old(self).wf(),
            old(self).buffer@.len() + buffer@.len() <= usize::MAX,
        ensures
            final(self).wf(),
            r == append_result(
                rejection((SourceImage { width: size, height: size, pixels: buffer }), old(self).height),
            ),
            r is Err ==> *final(self) == *old(self),
            r is Ok ==> appended(
                *old(self),
                *final(self),
                (SourceImage { width: size, height: size, pixels: buffer }),
            ),
    {
        let image = SourceImage { width: size, height: size, pixels: buffer };
        self.append(&image)
    }
}

/// The total of a prefix's buffer lengths is at most the whole sequence's.
proof fn lemma_prefix_bytes(s: Seq<SourceImage>, i: int)
    requires
        0 <= i <= s.len(),
    ensures
        total_bytes(s.subrange(0, i)) <= total_bytes(s),
    decreases s.len(),
{
    if i < s.len() {
        lemma_prefix_bytes(s.drop_last(), i);
        assert(s.drop_last().subrange(0, i) =~= s.subrange(0, i));
    } else {
        assert(s.subrange(0, i) =~= s);
    }
}

/// Tiling follows input order: a row of `[a, b]` is `a`'s row then `b`'s, and a row of
/// `[b, a]` is `b`'s row then `a`'s.
pub proof fn lemma_tiling_follows_input_order(a: SourceImage, b: SourceImage, k: int)
    ensures
        tiled_row(seq![a, b], k) == row_of(a.pixels@, a.width * 4, k) + row_of(
            b.pixels@,
            b.width * 4,
            k,
        ),
        tiled_row(seq![b, a], k) == row_of(b.pixels@, b.width * 4, k) + row_of(
            a.pixels@,
            a.width * 4,
            k,
        ),
{
    assert(seq![a, b].drop_last() =~= seq![a]);
    assert(seq![b, a].drop_last() =~= seq![b]);
    assert(seq![a].drop_last() =~= Seq::<SourceImage>::empty());
    assert(seq![b].drop_last() =~= Seq::<SourceImage>::empty());
    assert(tiled_row(Seq::<SourceImage>::empty(), k) == Seq::<u8>::empty());
    assert(tiled_row(seq![a], k) =~= row_of(a.pixels@, a.width * 4, k));
    assert(tiled_row(seq![b], k) =~= row_of(b.pixels@, b.width * 4, k));
}

/// An image whose height differs from the atlas's is rejected for its height,
/// whatever else is wrong with it.
pub proof fn lemma_height_mismatch_rejected(img: SourceImage, height: usize)
    requires
        img.height != height,
    ensures
        rejection(img, height) == Some(
            MismatchReason::HeightMismatch { expected: height, got: img.height },
        ),
{
}

/// Builds an atlas from `images`, tiled left to right in the order given. Its height
/// is `target_height` if given, else the first image's height. Stops at the first
/// image that does not fit and reports its index.
pub fn build(images: &Vec<SourceImage>, target_height: Option<usize>) -> (res: Result<
    Atlas,
    BuildError,
>)
    requires
        total_bytes(images@) <= usize::MAX,
    ensures
        build_result(images@, target_height, res),
{
    let h: usize = match target_height {
        Some(t) => t,
        None => {
            if images.len() == 0 {
                return Err(BuildError::EmptyInput);
            }
            images[0].height
        },
    };
    let mut atlas = Atlas::new(h);
    let mut i: usize = 0;
    while i < images.len()
        invariant
            i <= images.len(),
            fixed_height(images@, target_height) == Some(h),
            total_bytes(images@) <= usize::MAX,
            atlas.wf(),
            atlas.height == h,
            atlas.width == total_width(images@.subrange(0, i as int)),
            atlas.buffer@.len() == total_bytes(images@.subrange(0, i as int)),
            forall|k: int|
                0 <= k < h ==> #[trigger] atlas.spec_row(k) == tiled_row(
                    images@.subrange(0, i as int),
                    k,
                ),
            forall|j: int| 0 <= j < i ==> #[trigger] rejection(images@[j], h) is None,
        decreases images.len() - i,
    {
        let ghost before = atlas;
        let ghost p = images@.subrange(0, i + 1);
        proof {
            assert(p.drop_last() =~= images@.subrange(0, i as int));
            lemma_prefix_bytes(images@, i + 1);
        }
        match atlas.append(&images[i]) {
            Err(reason) => {
                return Err(BuildError::DimensionMismatch { index: i, reason });
            },
            Ok(()) => {},
        }
        proof {
            assert forall|k: int| 0 <= k < h implies #[trigger] atlas.spec_row(k) == tiled_row(
                p,
                k,
            ) by {
                assert(before.spec_row(k) == tiled_row(images@.subrange(0, i as int), k));
            }
        }
        i = i + 1;
    }
    proof {
        assert(images@.subrange(0, images.len() as int) =~= images@);
    }
    Ok(atlas)
}

/// The length and rows of an interleaving of `n` rows.
proof fn lemma_interleave(a: Seq<u8>, sa: int, b: Seq<u8>, sb: int, n: nat)
    requires
        0 <= sa,
        0 <= sb,
        n * sa <= a.len(),
        n * sb <= b.len(),
    ensures
        interleave(a, sa, b, sb, n).len() == n * (sa + sb),
        forall|k: int|
            0 <= k < n ==> #[trigger] row_of(interleave(a, sa, b, sb, n), sa + sb, k) == row_of(
                a,
                sa,
                k,
            ) + row_of(b, sb, k),
    decreases n,
{
    if n > 0 {
        let m = (n - 1) as nat;
        assert(m * sa <= n * sa && m * sb <= n * sb) by (nonlinear_arith)
            requires
                m < n,
                0 <= sa,
                0 <= sb,
        ;
        assert(n * sa == m * sa + sa && n * sb == m * sb + sb) by (nonlinear_arith)
            requires
                n == m + 1,
        ;
        lemma_interleave(a, sa, b, sb, m);
        let s = sa + sb;
        let prev = interleave(a, sa, b, sb, m);
        let cur = interleave(a, sa, b, sb, n);
        assert(n * s == m * s + s) by (nonlinear_arith)
            requires
                n == m + 1,
        ;
        assert(0 <= m * sa && 0 <= m * sb && (m + 1) * sa == n * sa && (m + 1) * sb == n * sb)
            by (nonlinear_arith)
            requires
                n == m + 1,
                0 <= sa,
                0 <= sb,
        ;
        assert(cur == prev + row_of(a, sa, m as int) + row_of(b, sb, m as int));
        assert forall|k: int| 0 <= k < n implies #[trigger] row_of(cur, s, k) == row_of(a, sa, k)
            + row_of(b, sb, k) by {
            if k < m {
                assert(0 <= k * s && (k + 1) * s <= m * s && (k + 1) * s == k * s + s)
                    by (nonlinear_arith)
                    requires
                        0 <= k,
                        k + 1 <= m,
                        0 <= s,
                ;
                assert(row_of(cur, s, k) =~= row_of(prev, s, k));
            } else {
                assert((k + 1) * s == m * s + s) by (nonlinear_arith)
                    requires
                        k == m,
                ;
                assert(row_of(cur, s, k) =~= row_of(a, sa, k) + row_of(b, sb, k));
            }
        }
    }
}

} // verus!
