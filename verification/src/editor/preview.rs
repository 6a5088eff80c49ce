//! Previews of the selected asset.

use vstd::prelude::*;

use crate::ecs::scalar::{zero, Scalar, INFINITY_BITS, NEGATIVE_INFINITY_BITS};
use crate::editor::assets::AssetEntry;
use crate::editor::import::{AssetImporter, ImportOutcome, ImportRecord};
use crate::paths::same_path;
use crate::rounding::{
    divide_to_nearest, law_numbers_keep_fifty_three_bits, law_quotient_is_the_nearest,
    law_scaled_side_fits, law_scaled_side_is_near, nearest_even, nearly_scaled, round_53,
    rounded_53, scale, scaled,
};
use crate::text::{decimal, decimal_text, join2, join3};

verus! {

/// The longest side of a thumbnail, in pixels.
pub const THUMBNAIL_MAX_PX: u32 = 256;

/// How many columns a waveform has.
pub const WAVEFORM_COLUMNS: usize = 240;

/// The counts of a model.
#[derive(Debug, Clone, Copy, PartialEq, Eq, Structural)]
pub struct MeshSummary {
    /// Meshes.
    pub meshes: usize,
    /// Vertices of all meshes.
    pub vertices: usize,
    /// Triangles of all meshes.
    pub triangles: usize,
    /// Materials.
    pub materials: usize,
    /// Images.
    pub images: usize,
    /// Skeletons.
    pub skeletons: usize,
    /// Animations.
    pub animations: usize,
    /// Cameras.
    pub cameras: usize,
}

/// How large one mesh is.
#[derive(Debug, Clone, Copy, PartialEq, Eq, Structural)]
pub struct MeshSize {
    /// Its vertices.
    pub vertices: usize,
    /// Its indices, three for a triangle.
    pub indices: usize,
}

/// How much a model holds.
#[derive(Debug)]
pub struct ModelSize {
    /// Its meshes.
    pub meshes: Vec<MeshSize>,
    /// Its materials.
    pub materials: usize,
    /// Its images.
    pub images: usize,
    /// Its skeletons.
    pub skeletons: usize,
    /// Its animations.
    pub animations: usize,
    /// Its cameras.
    pub cameras: usize,
}

/// The vertices of the first `n` meshes.
pub open spec fn vertices_of(meshes: Seq<MeshSize>, n: nat) -> nat
    decreases n,
{
    if n == 0 {
        0
    } else {
        vertices_of(meshes, (n - 1) as nat) + meshes[n - 1].vertices as nat
    }
}

/// The triangles of the first `n` meshes.
pub open spec fn triangles_of(meshes: Seq<MeshSize>, n: nat) -> nat
    decreases n,
{
    if n == 0 {
        0
    } else {
        triangles_of(meshes, (n - 1) as nat) + (meshes[n - 1].indices / 3) as nat
    }
}

proof fn lemma_sums_grow(meshes: Seq<MeshSize>, n: nat, m: nat)
    requires
        n <= m,
    ensures
        vertices_of(meshes, n) <= vertices_of(meshes, m),
        triangles_of(meshes, n) <= triangles_of(meshes, m),
    decreases m,
{
    if n < m {
        lemma_sums_grow(meshes, n, (m - 1) as nat);
    }
}

/// The counts of a model.
pub fn mesh_summary(model: &ModelSize) -> (summary: MeshSummary)
    requires
        vertices_of(model.meshes@, model.meshes@.len()) <= usize::MAX,
        triangles_of(model.meshes@, model.meshes@.len()) <= usize::MAX,
    ensures
        summary == (MeshSummary {
            meshes: model.meshes@.len() as usize,
            vertices: vertices_of(model.meshes@, model.meshes@.len()) as usize,
            triangles: triangles_of(model.meshes@, model.meshes@.len()) as usize,
            materials: model.materials,
            images: model.images,
            skeletons: model.skeletons,
            animations: model.animations,
            cameras: model.cameras,
        }),
{
    let mut vertices: usize = 0;
    let mut triangles: usize = 0;
    let count: usize = model.meshes.len();
    for i in 0..count
        invariant
            count == model.meshes@.len(),
            vertices_of(model.meshes@, count as nat) <= usize::MAX,
            triangles_of(model.meshes@, count as nat) <= usize::MAX,
            vertices == vertices_of(model.meshes@, i as nat),
            triangles == triangles_of(model.meshes@, i as nat),
    {
        proof {
            lemma_sums_grow(model.meshes@, (i + 1) as nat, count as nat);
        }
        vertices += model.meshes[i].vertices;
        triangles += model.meshes[i].indices / 3;
    }
    MeshSummary {
        meshes: count,
        vertices,
        triangles,
        materials: model.materials,
        images: model.images,
        skeletons: model.skeletons,
        animations: model.animations,
        cameras: model.cameras,
    }
}

/// What is known of a sound.
#[derive(Debug, Clone, Copy, PartialEq, Eq, Structural)]
pub struct AudioSummary {
    /// Samples per second and channel.
    pub sample_rate: u32,
    /// Channels; none counts as one.
    pub channels: u16,
    /// Samples per channel.
    pub frames: usize,
    /// Its length in seconds; zero where the sample rate is zero.
    pub duration_secs: Scalar,
}

/// The number of channels, none counting as one.
pub open spec fn channel_count(channels: u16) -> int {
    if channels == 0 {
        1
    } else {
        channels as int
    }
}

fn count_channels(channels: u16) -> (count: usize)
    ensures
        count == channel_count(channels),
{
    if channels == 0 {
        1
    } else {
        channels as usize
    }
}

/// What is known of a sound that has the given number of samples. `seconds` divides
/// frames by a sample rate that is not zero.
pub fn audio_summary<F: Fn(usize, u32) -> Scalar>(
    sample_rate: u32,
    channels: u16,
    samples: usize,
    seconds: &F,
) -> (summary: AudioSummary)
    requires
        forall|frames: usize, rate: u32| rate > 0 ==> seconds.requires((frames, rate)),
    ensures
        summary.sample_rate == sample_rate,
        summary.channels == channels,
        summary.frames == samples as int / channel_count(channels),
        if sample_rate == 0 {
            summary.duration_secs == zero()
        } else {
            seconds.ensures((summary.frames, sample_rate), summary.duration_secs)
        },
{
    let frames: usize = samples / count_channels(channels);
    let duration_secs: Scalar = if sample_rate == 0 {
        Scalar::zero()
    } else {
        seconds(frames, sample_rate)
    };
    AudioSummary { sample_rate, channels, frames, duration_secs }
}

/// What is known of an image.
#[derive(Debug, Clone, Copy, PartialEq, Eq, Structural)]
pub struct TextureSummary {
    /// Its width in pixels.
    pub width: u32,
    /// Its height in pixels.
    pub height: u32,
    /// How many sizes it is stored in.
    pub mip_levels: usize,
    /// The bytes of the largest.
    pub level0_bytes: usize,
}

/// What is known of an image that is stored in sizes of the given numbers of bytes.
pub fn texture_summary(width: u32, height: u32, mip_bytes: &[usize]) -> (summary: TextureSummary)
    ensures
        summary == (TextureSummary {
            width,
            height,
            mip_levels: mip_bytes@.len() as usize,
            level0_bytes: if mip_bytes@.len() > 0 {
                mip_bytes@[0]
            } else {
                0
            },
        }),
{
    let level0_bytes: usize = if mip_bytes.len() > 0 {
        mip_bytes[0]
    } else {
        0
    };
    TextureSummary { width, height, mip_levels: mip_bytes.len(), level0_bytes }
}

/// The least value of the first channel over the frames `from..to`.
pub open spec fn lowest(samples: Seq<Scalar>, channels: int, from: int, to: int) -> Scalar
    decreases to - from,
{
    if to <= from {
        Scalar { bits: INFINITY_BITS }
    } else {
        lowest(samples, channels, from, to - 1).lesser(samples[(to - 1) * channels])
    }
}

/// The greatest value of the first channel over the frames `from..to`.
pub open spec fn highest(samples: Seq<Scalar>, channels: int, from: int, to: int) -> Scalar
    decreases to - from,
{
    if to <= from {
        Scalar { bits: NEGATIVE_INFINITY_BITS }
    } else {
        highest(samples, channels, from, to - 1).greater(samples[(to - 1) * channels])
    }
}

/// One column of a waveform.
#[derive(Debug, Clone, Copy, PartialEq, Eq, Structural)]
pub struct WaveBin {
    /// The least value.
    pub low: Scalar,
    /// The greatest value.
    pub high: Scalar,
}

/// The smaller of two numbers.
pub open spec fn smaller(a: int, b: int) -> int {
    if a <= b {
        a
    } else {
        b
    }
}

/// How many frames a column stands for.
pub open spec fn frames_per_column(frames: int, columns: int) -> int {
    (frames + smaller(columns, frames) - 1) / smaller(columns, frames)
}

/// The columns for the frames from `from` on.
pub open spec fn waveform(
    samples: Seq<Scalar>,
    channels: int,
    frames: int,
    per_column: int,
    from: int,
) -> Seq<WaveBin>
    decreases frames - from,
    when per_column > 0
{
    if from >= frames {
        Seq::empty()
    } else {
        let to = smaller(from + per_column, frames);
        seq![
            WaveBin {
                low: lowest(samples, channels, from, to),
                high: highest(samples, channels, from, to),
            },
        ] + waveform(samples, channels, frames, per_column, to)
    }
}

/// Reduces a sound to at most as many columns as asked, over its first channel: the
/// least and the greatest value in each.
pub fn waveform_bins(samples: &[Scalar], channels: u16, columns: usize) -> (bins: Vec<WaveBin>)
    ensures
        ({
            let frames = samples@.len() as int / channel_count(channels);
            bins@ == (if frames == 0 || columns == 0 {
                Seq::empty()
            } else {
                waveform(
                    samples@,
                    channel_count(channels),
                    frames,
                    frames_per_column(frames, columns as int),
                    0,
                )
            })
        }),
{
    let count: usize = count_channels(channels);
    let length: usize = samples.len();
    let frames: usize = length / count;
    let mut bins: Vec<WaveBin> = Vec::new();
    if frames == 0 || columns == 0 {
        assert(bins@ =~= Seq::empty());
        return bins;
    }
    let columns: usize = if columns < frames {
        columns
    } else {
        frames
    };
    let per_column: usize = (frames - 1) / columns + 1;
    proof {
        assert(per_column == (frames + columns - 1) / columns as int) by (nonlinear_arith)
            requires
                0 < columns,
                0 < frames,
                per_column == (frames - 1) / columns as int + 1,
        ;
        assert(frames * count <= length) by (nonlinear_arith)
            requires
                frames == length / count,
                0 < count,
        ;
    }
    let ghost goal = waveform(samples@, count as int, frames as int, per_column as int, 0);
    let mut start: usize = 0;
    while start < frames
        invariant
            0 < per_column,
            0 < count,
            start <= frames,
            frames * count <= length,
            length == samples@.len(),
            goal == bins@ + waveform(
                samples@,
                count as int,
                frames as int,
                per_column as int,
                start as int,
            ),
        decreases frames - start,
    {
        let end: usize = if frames - start < per_column {
            frames
        } else {
            start + per_column
        };
        let mut low = Scalar { bits: INFINITY_BITS };
        let mut high = Scalar { bits: NEGATIVE_INFINITY_BITS };
        for frame in start..end
            invariant
                0 < count,
                end <= frames,
                frames * count <= length,
                length == samples@.len(),
                low == lowest(samples@, count as int, start as int, frame as int),
                high == highest(samples@, count as int, start as int, frame as int),
        {
            assert(frame * count < length) by (nonlinear_arith)
                requires
                    frame < frames,
                    0 < count,
                    frames * count <= length,
            ;
            let value = samples[frame * count];
            low = low.min(&value);
            high = high.max(&value);
        }
        let ghost before = bins@;
        bins.push(WaveBin { low, high });
        assert(bins@ + waveform(
            samples@,
            count as int,
            frames as int,
            per_column as int,
            end as int,
        ) =~= before + waveform(
            samples@,
            count as int,
            frames as int,
            per_column as int,
            start as int,
        ));
        start = end;
    }
    assert(bins@ =~= goal);
    bins
}

/// A waveform has no more columns than asked.
pub proof fn law_waveform_has_no_more_columns_than_asked(
    samples: Seq<Scalar>,
    channels: int,
    frames: int,
    columns: int,
)
    requires
        0 < frames,
        0 < columns,
    ensures
        waveform(samples, channels, frames, frames_per_column(frames, columns), 0).len() <= columns,
{
    let limit = smaller(columns, frames);
    let per_column = frames_per_column(frames, columns);
    assert(per_column * limit >= frames && per_column > 0) by (nonlinear_arith)
        requires
            0 < limit <= frames,
            per_column == (frames + limit - 1) / limit,
    ;
    lemma_columns(samples, channels, frames, per_column, 0, limit as nat);
}

proof fn lemma_columns(
    samples: Seq<Scalar>,
    channels: int,
    frames: int,
    per_column: int,
    from: int,
    n: nat,
)
    requires
        0 < per_column,
        frames - from <= per_column * n,
    ensures
        waveform(samples, channels, frames, per_column, from).len() <= n,
    decreases n,
{
    if from < frames {
        if n == 0 {
            assert(per_column * n == 0) by (nonlinear_arith)
                requires
                    n == 0,
            ;
        } else {
            assert(per_column * n == per_column * (n - 1) + per_column) by (nonlinear_arith);
            let to = smaller(from + per_column, frames);
            if to == frames {
                assert(waveform(samples, channels, frames, per_column, to).len() == 0);
            } else {
                lemma_columns(samples, channels, frames, per_column, to, (n - 1) as nat);
            }
        }
    }
}

/// The side of a scaled image: at least one pixel.
pub open spec fn scaled_side(side: u32, longest: u32, max: u32) -> u32 {
    let exact = scaled(side as nat, longest as nat, max as nat);
    if exact < 1 {
        1
    } else if exact > u32::MAX {
        u32::MAX
    } else {
        exact as u32
    }
}

fn scale_side(side: u32, longest: u32, max: u32) -> (result: u32)
    requires
        0 < max < longest,
    ensures
        result == scaled_side(side, longest, max),
        result > 0,
{
    let exact: u128 = scale(side, longest, max);
    if exact < 1 {
        1
    } else if exact > 0xffff_ffff {
        0xffff_ffff
    } else {
        exact as u32
    }
}

/// The longer of two sides.
pub open spec fn longer(width: u32, height: u32) -> u32 {
    if width >= height {
        width
    } else {
        height
    }
}

/// Whether an image is scaled down: its sides are not zero, its bytes are as many as
/// its sides say, and it is larger than allowed.
pub open spec fn scales(bytes: nat, width: u32, height: u32, max: u32) -> bool {
    &&& width > 0 && height > 0 && max > 0
    &&& bytes == width * height * 4
    &&& width > max || height > max
}

/// Byte `i` of an image scaled to the given sides: the byte of the nearest pixel.
pub open spec fn sampled(
    src: Seq<u8>,
    width: int,
    height: int,
    new_width: int,
    new_height: int,
    i: int,
) -> u8 {
    let pixel = i / 4;
    let x = (pixel % new_width) * width / new_width;
    let y = (pixel / new_width) * height / new_height;
    src[(y * width + x) * 4 + i % 4]
}

proof fn lemma_sample(p: int, side: int, new_side: int)
    requires
        0 <= p < new_side,
        0 < side,
    ensures
        0 <= p * side / new_side < side,
{
    assert(0 <= p * side < new_side * side) by (nonlinear_arith)
        requires
            0 <= p < new_side,
            0 < side,
    ;
    assert(0 <= p * side / new_side < side) by (nonlinear_arith)
        requires
            0 <= p * side < new_side * side,
            0 < new_side,
            0 < side,
    ;
}

proof fn lemma_pixel(k: int, new_width: int, new_height: int)
    requires
        0 <= k < new_width * new_height,
        0 < new_width,
    ensures
        0 <= k / new_width < new_height,
        0 <= k % new_width < new_width,
{
    assert(0 <= k / new_width < new_height && 0 <= k % new_width < new_width) by (nonlinear_arith)
        requires
            0 <= k < new_width * new_height,
            0 < new_width,
    ;
}

/// An image scaled down, with its sides: the nearest pixels where it is scaled, and
/// the image itself where it is not.
pub open spec fn downscaled(src: Seq<u8>, width: u32, height: u32, max: u32) -> (
    Seq<u8>,
    u32,
    u32,
) {
    if scales(src.len(), width, height, max) {
        let new_width = scaled_side(width, longer(width, height), max);
        let new_height = scaled_side(height, longer(width, height), max);
        (
            Seq::new(
                (new_width * new_height * 4) as nat,
                |i: int|
                    sampled(
                        src,
                        width as int,
                        height as int,
                        new_width as int,
                        new_height as int,
                        i,
                    ),
            ),
            new_width,
            new_height,
        )
    } else {
        (src, width, height)
    }
}

/// Scales an image of four bytes for each pixel down so that its longest side is at
/// most `max` pixels. An image that fits, or whose bytes are not as many as its sides
/// say, is given back as it is.
pub fn downscale_rgba(src: &[u8], width: u32, height: u32, max: u32) -> (image: (
    Vec<u8>,
    u32,
    u32,
))
    ensures
        (image.0@, image.1, image.2) == downscaled(src@, width, height, max),
{
    assert(0 <= width * height <= 0xffff_ffff * 0xffff_ffff) by (nonlinear_arith)
        requires
            0 <= width <= 0xffff_ffff,
            0 <= height <= 0xffff_ffff,
    ;
    let bytes: u128 = width as u128 * height as u128 * 4;
    let length: usize = src.len();
    if width == 0 || height == 0 || max == 0 || length as u128 != bytes || (width <= max && height
        <= max) {
        let mut copy: Vec<u8> = Vec::new();
        copy.extend_from_slice(src);
        assert(copy@ =~= src@);
        return (copy, width, height);
    }
    let longest: u32 = if width >= height {
        width
    } else {
        height
    };
    let new_width: u32 = scale_side(width, longest, max);
    let new_height: u32 = scale_side(height, longest, max);
    assert(0 <= new_width * new_height <= 0xffff_ffff * 0xffff_ffff) by (nonlinear_arith)
        requires
            0 <= new_width <= 0xffff_ffff,
            0 <= new_height <= 0xffff_ffff,
    ;
    let pixels: u64 = new_width as u64 * new_height as u64;
    let mut image: Vec<u8> = Vec::new();
    let mut k: u64 = 0;
    while k < pixels
        invariant
            k <= pixels,
            pixels == new_width * new_height,
            0 < width,
            0 < height,
            0 < new_width,
            0 < new_height,
            src@.len() == width * height * 4,
            length == src@.len(),
            image@.len() == k * 4,
            forall|i: int|
                0 <= i < image@.len() ==> #[trigger] image@[i] == sampled(
                    src@,
                    width as int,
                    height as int,
                    new_width as int,
                    new_height as int,
                    i,
                ),
        decreases pixels - k,
    {
        let column: u64 = k % new_width as u64;
        let row: u64 = k / new_width as u64;
        proof {
            lemma_pixel(k as int, new_width as int, new_height as int);
            lemma_sample(column as int, width as int, new_width as int);
            lemma_sample(row as int, height as int, new_height as int);
            assert(0 <= column * width <= 0xffff_ffff * 0xffff_ffff) by (nonlinear_arith)
                requires
                    0 <= column <= 0xffff_ffff,
                    0 <= width <= 0xffff_ffff,
            ;
            assert(0 <= row * height <= 0xffff_ffff * 0xffff_ffff) by (nonlinear_arith)
                requires
                    0 <= row <= 0xffff_ffff,
                    0 <= height <= 0xffff_ffff,
            ;
        }
        let x: u64 = column * width as u64 / new_width as u64;
        let y: u64 = row * height as u64 / new_height as u64;
        proof {
            assert(y * width + x < width * height) by (nonlinear_arith)
                requires
                    0 <= y < height,
                    0 <= x < width,
            ;
            assert(0 <= y * width) by (nonlinear_arith)
                requires
                    0 <= y,
                    0 < width,
            ;
        }
        let offset: usize = ((y as u128 * width as u128 + x as u128) * 4) as usize;
        let ghost before = image@;
        image.push(src[offset]);
        image.push(src[offset + 1]);
        image.push(src[offset + 2]);
        image.push(src[offset + 3]);
        assert forall|i: int| 0 <= i < image@.len() implies #[trigger] image@[i] == sampled(
            src@,
            width as int,
            height as int,
            new_width as int,
            new_height as int,
            i,
        ) by {
            if i < before.len() {
                assert(image@[i] == before[i]);
            } else {
                assert(i / 4 == k);
            }
        }
        k += 1;
    }
    assert(image@ =~= Seq::new(
        (new_width * new_height * 4) as nat,
        |i: int|
            sampled(src@, width as int, height as int, new_width as int, new_height as int, i),
    ));
    (image, new_width, new_height)
}

/// An image that was scaled down has no side longer than asked, and as many bytes as
/// its sides say.
pub proof fn law_downscaled_image_fits(src: Seq<u8>, width: u32, height: u32, max: u32)
    requires
        0 < width,
        0 < height,
        0 < max,
        src.len() == width * height * 4,
    ensures
        ({
            let image = downscaled(src, width, height, max);
            &&& 0 < image.1 <= max
            &&& 0 < image.2 <= max
            &&& image.0.len() == image.1 * image.2 * 4
        }),
{
    if scales(src.len(), width, height, max) {
        law_scaled_side_fits(width, longer(width, height), max);
        law_scaled_side_fits(height, longer(width, height), max);
        let image = downscaled(src, width, height, max);
        assert(0 <= image.1 * image.2) by (nonlinear_arith)
            requires
                0 <= image.1,
                0 <= image.2,
        ;
    }
}

/// Whether a side of a scaled image is its exact share of the longest side, which
/// became `max`, up to half a pixel and the roundings on the way, or is the one pixel that
/// a side has at least where its share is less.
pub open spec fn in_proportion(new_side: u32, side: u32, longest: u32, max: u32) -> bool {
    ||| nearly_scaled(new_side as int, side as int, longest as int, max as int)
    ||| new_side == 1 && side * max < longest
}

/// An image that was scaled down has a longer side of exactly as many pixels as asked, and
/// its other side keeps the proportion.
pub proof fn law_downscaled_image_keeps_its_proportion(
    src: Seq<u8>,
    width: u32,
    height: u32,
    max: u32,
)
    requires
        scales(src.len(), width, height, max),
    ensures
        ({
            let image = downscaled(src, width, height, max);
            let longest = longer(width, height);
            &&& longer(image.1, image.2) == max
            &&& width == longest ==> image.1 == max
            &&& height == longest ==> image.2 == max
            &&& in_proportion(image.1, width, longest, max)
            &&& in_proportion(image.2, height, longest, max)
        }),
{
    let longest = longer(width, height);
    law_scaled_side_fits(width, longest, max);
    law_scaled_side_fits(height, longest, max);
    law_scaled_side_is_near(width, longest, max);
    law_scaled_side_is_near(height, longest, max);
    assert(0 * longest == 0 && 0 <= width * max && 0 <= height * max) by (nonlinear_arith)
        requires
            0 <= width,
            0 <= height,
            0 <= max,
    ;
}

/// The thumbnail of an image, unless its bytes are not as many as its sides say.
pub fn thumbnail(rgba: &[u8], width: u32, height: u32) -> (image: Option<(Vec<u8>, u32, u32)>)
    ensures
        image is Some <==> rgba@.len() == width * height * 4,
        image matches Some(image) ==> (image.0@, image.1, image.2) == downscaled(
            rgba@,
            width,
            height,
            THUMBNAIL_MAX_PX,
        ),
{
    assert(0 <= width * height <= 0xffff_ffff * 0xffff_ffff) by (nonlinear_arith)
        requires
            0 <= width <= 0xffff_ffff,
            0 <= height <= 0xffff_ffff,
    ;
    let bytes: u128 = width as u128 * height as u128 * 4;
    if rgba.len() as u128 != bytes {
        return None;
    }
    Some(downscale_rgba(rgba, width, height, THUMBNAIL_MAX_PX))
}

/// How often the unit of a count of bytes is made larger.
pub open spec fn unit_of(value: nat) -> int {
    if value < 1024 {
        0
    } else if value < 1_048_576 {
        1
    } else if value < 1_073_741_824 {
        2
    } else {
        3
    }
}

/// How many bytes the unit stands for.
pub open spec fn unit_bytes(unit: int) -> nat {
    if unit <= 0 {
        1
    } else if unit == 1 {
        1024
    } else if unit == 2 {
        1_048_576
    } else {
        1_073_741_824
    }
}

/// The name of the unit.
pub open spec fn unit_name(unit: int) -> Seq<char> {
    if unit <= 0 {
        " B"@
    } else if unit == 1 {
        " KiB"@
    } else if unit == 2 {
        " MiB"@
    } else {
        " GiB"@
    }
}

/// A count of bytes in words: whole below one kibibyte, else with one digit behind
/// the point, rounded to the nearest, to the even one of two that are as near.
pub open spec fn bytes_text(bytes: nat) -> Seq<char> {
    let value = rounded_53(bytes);
    let unit = unit_of(value);
    if unit == 0 {
        decimal_text(bytes) + " B"@
    } else {
        let tenths = nearest_even(10 * value, unit_bytes(unit));
        decimal_text(tenths / 10) + "."@ + decimal_text(tenths % 10) + unit_name(unit)
    }
}

/// A count of bytes in words, such as `512 B` or `2.0 KiB`.
pub fn human_bytes(bytes: usize) -> (text: String)
    ensures
        text@ == bytes_text(bytes as nat),
{
    let value: u128 = round_53(bytes as u128);
    if value < 1024 {
        return join2(&decimal(bytes as u64), " B");
    }
    let (per_unit, name): (u128, &'static str) = if value < 1_048_576 {
        (1024, " KiB")
    } else if value < 1_073_741_824 {
        (1_048_576, " MiB")
    } else {
        (1_073_741_824, " GiB")
    };
    let tenths: u128 = divide_to_nearest(10 * value, per_unit);
    proof {
        assert(tenths <= u64::MAX) by {
            assert(tenths * per_unit <= 10 * value + per_unit);
            assert(tenths * 1024 <= tenths * per_unit) by (nonlinear_arith)
                requires
                    1024 <= per_unit,
                    0 <= tenths,
            ;
        }
    }
    let whole: u64 = (tenths / 10) as u64;
    let rest: u64 = (tenths % 10) as u64;
    let number = join3(&decimal(whole), ".", &decimal(rest));
    join2(&number, name)
}

/// The first record that is a failure of the file.
pub open spec fn failure_among(records: Seq<ImportRecord>, path: Seq<char>, n: nat) -> Option<
    String,
>
    decreases n,
{
    if n == 0 {
        None
    } else {
        match failure_among(records, path, (n - 1) as nat) {
            Some(message) => Some(message),
            None => match records[n - 1].outcome {
                ImportOutcome::Failed(message) => if same_path(
                    records[n - 1].relative_path@,
                    path,
                ) {
                    Some(message)
                } else {
                    None
                },
                _ => None,
            },
        }
    }
}

/// Why the last pass could not import the file, if it could not.
pub fn failure_message(records: &[ImportRecord], path: &str) -> (message: Option<String>)
    ensures
        message == failure_among(records@, path@, records@.len()),
{
    let mut found: Option<String> = None;
    for i in 0..records.len()
        invariant
            found == failure_among(records@, path@, i as nat),
    {
        if found.is_none() {
            match &records[i].outcome {
                ImportOutcome::Failed(message) => {
                    if crate::paths::same(&records[i].relative_path, path) {
                        found = Some(message.clone());
                    }
                },
                ImportOutcome::Imported | ImportOutcome::Cached => {},
            }
        }
    }
    found
}

/// What the preview shows.
#[derive(Debug, PartialEq, Eq)]
pub enum PreviewShown {
    /// That nothing is selected.
    Nothing,
    /// Why there is no preview.
    Failed(String),
    /// That there is no preview of such files.
    Unavailable,
    /// The asset.
    Asset {
        /// Whether what is drawn has to be made anew.
        rebuild: bool,
    },
}

impl PreviewShown {
    /// What stands in place of a preview, if nothing is previewed.
    pub open spec fn notice_text(self) -> Option<Seq<char>> {
        match self {
            PreviewShown::Nothing => Some("Select an asset."@),
            PreviewShown::Failed(message) => Some("No preview \u{2014} "@ + message@),
            PreviewShown::Unavailable => Some("No preview for this asset kind."@),
            PreviewShown::Asset { .. } => None,
        }
    }

    /// What stands in place of a preview, if nothing is previewed.
    pub fn notice(&self) -> (text: Option<String>)
        ensures
            text is Some <==> self.notice_text() is Some,
            text matches Some(text) ==> Some(text@) == self.notice_text(),
    {
        match self {
            PreviewShown::Nothing => Some("Select an asset.".to_string()),
            PreviewShown::Failed(message) => Some(join2("No preview \u{2014} ", message)),
            PreviewShown::Unavailable => Some("No preview for this asset kind.".to_string()),
            PreviewShown::Asset { .. } => None,
        }
    }
}

/// The file and the import pass that a preview was made of.
#[derive(Debug)]
pub struct PreviewKey {
    /// The file.
    pub path: String,
    /// The number of the pass.
    pub pass_id: u64,
}

/// What the preview shows for a selection. `cached` is what the preview was last made
/// of.
pub open spec fn preview_shown<A>(
    entry: Option<AssetEntry>,
    importer: AssetImporter<A>,
    cached: Option<PreviewKey>,
) -> PreviewShown {
    match entry {
        None => PreviewShown::Nothing,
        Some(entry) => match failure_among(
            importer.log(),
            entry.relative_path@,
            importer.log().len(),
        ) {
            Some(message) => PreviewShown::Failed(message),
            None => if entry.id is Some && importer.held().contains_key(entry.id->0.value) {
                PreviewShown::Asset {
                    rebuild: match cached {
                        Some(key) => !(same_path(key.path@, entry.relative_path@) && key.pass_id
                            == importer.passes()),
                        None => true,
                    },
                }
            } else {
                PreviewShown::Unavailable
            },
        },
    }
}

/// What the preview shows for a selection. `cached` is what the preview was last made
/// of.
pub fn preview<A>(
    entry: Option<&AssetEntry>,
    importer: &AssetImporter<A>,
    cached: &Option<PreviewKey>,
) -> (shown: PreviewShown)
    ensures
        shown == preview_shown(
            match entry {
                Some(entry) => Some(*entry),
                None => None,
            },
            *importer,
            *cached,
        ),
{
    let entry = match entry {
        Some(entry) => entry,
        None => {
            return PreviewShown::Nothing;
        },
    };
    match failure_message(importer.records(), &entry.relative_path) {
        Some(message) => {
            return PreviewShown::Failed(message);
        },
        None => {},
    }
    let held: bool = match entry.id {
        Some(id) => importer.get(id).is_some(),
        None => false,
    };
    if !held {
        return PreviewShown::Unavailable;
    }
    let current: bool = match cached {
        Some(key) => crate::paths::same(&key.path, &entry.relative_path) && key.pass_id
            == importer.pass_id(),
        None => false,
    };
    PreviewShown::Asset { rebuild: !current }
}

/// The line below the preview of an image.
pub open spec fn texture_text(summary: TextureSummary) -> Seq<char> {
    decimal_text(summary.width as nat) + "\u{d7}"@ + decimal_text(summary.height as nat)
        + " \u{b7} "@ + decimal_text(summary.mip_levels as nat) + (" mips \u{b7} "@ + bytes_text(
        summary.level0_bytes as nat,
    ))
}

/// The line below the preview of an image.
pub fn texture_line(summary: &TextureSummary) -> (text: String)
    ensures
        text@ == texture_text(*summary),
{
    let sides = join3(&decimal(summary.width as u64), "\u{d7}", &decimal(summary.height as u64));
    let levels = join3(&sides, " \u{b7} ", &decimal(summary.mip_levels as u64));
    let bytes = join2(" mips \u{b7} ", &human_bytes(summary.level0_bytes));
    join2(&levels, &bytes)
}

/// The three lines below the preview of a model.
pub open spec fn mesh_texts(summary: MeshSummary) -> (Seq<char>, Seq<char>, Seq<char>) {
    (
        decimal_text(summary.meshes as nat) + " meshes \u{b7} "@ + decimal_text(
            summary.vertices as nat,
        ) + (" verts \u{b7} "@ + decimal_text(summary.triangles as nat) + " tris"@),
        decimal_text(summary.materials as nat) + " materials \u{b7} "@ + decimal_text(
            summary.images as nat,
        ) + (" images \u{b7} "@ + decimal_text(summary.skeletons as nat) + " skeletons"@),
        decimal_text(summary.animations as nat) + " animations \u{b7} "@ + decimal_text(
            summary.cameras as nat,
        ) + " cameras"@,
    )
}

/// The three lines below the preview of a model.
pub fn mesh_lines(summary: &MeshSummary) -> (lines: (String, String, String))
    ensures
        (lines.0@, lines.1@, lines.2@) == mesh_texts(*summary),
{
    let a = join3(
        &decimal(summary.meshes as u64),
        " meshes \u{b7} ",
        &decimal(summary.vertices as u64),
    );
    let b = join3(" verts \u{b7} ", &decimal(summary.triangles as u64), " tris");
    let c = join3(
        &decimal(summary.materials as u64),
        " materials \u{b7} ",
        &decimal(summary.images as u64),
    );
    let d = join3(" images \u{b7} ", &decimal(summary.skeletons as u64), " skeletons");
    let e = join3(
        &decimal(summary.animations as u64),
        " animations \u{b7} ",
        &decimal(summary.cameras as u64),
    );
    (join2(&a, &b), join2(&c, &d), join2(&e, " cameras"))
}

/// Every mesh of a model adds its vertices, and a triangle for every three of its indices.
pub proof fn law_every_mesh_counts(meshes: Seq<MeshSize>, mesh: MeshSize)
    ensures
        vertices_of(Seq::empty(), 0) == 0 && triangles_of(Seq::empty(), 0) == 0,
        vertices_of(meshes.push(mesh), meshes.len() + 1) == vertices_of(meshes, meshes.len())
            + mesh.vertices,
        triangles_of(meshes.push(mesh), meshes.len() + 1) == triangles_of(meshes, meshes.len())
            + mesh.indices / 3,
{
    lemma_same_sums(meshes, meshes.push(mesh), meshes.len());
}

proof fn lemma_same_sums(a: Seq<MeshSize>, b: Seq<MeshSize>, n: nat)
    requires
        n <= a.len(),
        n <= b.len(),
        forall|i: int| 0 <= i < n ==> #[trigger] a[i] == b[i],
    ensures
        vertices_of(a, n) == vertices_of(b, n),
        triangles_of(a, n) == triangles_of(b, n),
    decreases n,
{
    if n > 0 {
        lemma_same_sums(a, b, (n - 1) as nat);
        assert(a[n - 1] == b[n - 1]);
    }
}

/// A column of a waveform reaches from the lowest to the highest of its samples, those of
/// the first channel: no sample that is a number lies outside, and both ends are samples
/// unless none is a number.
pub proof fn law_columns_span_their_samples(
    samples: Seq<Scalar>,
    channels: int,
    from: int,
    to: int,
    f: int,
) -> (at: (int, int))
    requires
        from <= f < to,
    ensures
        ({
            let low = lowest(samples, channels, from, to);
            let high = highest(samples, channels, from, to);
            let sample = samples[f * channels];
            &&& !low.not_a_number() && !high.not_a_number()
            &&& !sample.less(low) && !high.less(sample)
            &&& !sample.not_a_number() ==> {
                &&& from <= at.0 < to && low.same(samples[at.0 * channels]) || low
                    == (Scalar { bits: 0x7f80_0000 })
                &&& from <= at.1 < to && high.same(samples[at.1 * channels]) || high
                    == (Scalar { bits: 0xff80_0000 })
            }
        }),
    decreases to - from,
{
    lemma_span(samples, channels, from, to)
}

proof fn lemma_span(samples: Seq<Scalar>, channels: int, from: int, to: int) -> (at: (int, int))
    ensures
        ({
            let low = lowest(samples, channels, from, to);
            let high = highest(samples, channels, from, to);
            &&& !low.not_a_number() && !high.not_a_number()
            &&& forall|f: int|
                #![trigger samples[f * channels]]
                from <= f < to ==> !samples[f * channels].less(low) && !high.less(
                    samples[f * channels],
                )
            &&& from <= at.0 < to && low.same(samples[at.0 * channels]) || low == (Scalar {
                bits: 0x7f80_0000,
            })
            &&& from <= at.1 < to && high.same(samples[at.1 * channels]) || high == (Scalar {
                bits: 0xff80_0000,
            })
        }),
    decreases to - from,
{
    if to <= from {
        (0, 0)
    } else {
        let at = lemma_span(samples, channels, from, to - 1);
        let sample = samples[(to - 1) * channels];
        let low = lowest(samples, channels, from, to);
        let high = highest(samples, channels, from, to);
        let a = if low == lowest(samples, channels, from, to - 1) {
            at.0
        } else {
            to - 1
        };
        let b = if high == highest(samples, channels, from, to - 1) {
            at.1
        } else {
            to - 1
        };
        (a, b)
    }
}

/// The columns of a waveform share its frames out in order: each has as many as fit into so
/// many columns, the last one what is left.
pub proof fn law_columns_follow_the_frames(
    samples: Seq<Scalar>,
    channels: int,
    frames: int,
    per_column: int,
    k: int,
)
    requires
        0 < per_column,
        0 <= k,
        k * per_column < frames,
    ensures
        ({
            let bins = waveform(samples, channels, frames, per_column, 0);
            let end = if (k + 1) * per_column <= frames {
                (k + 1) * per_column
            } else {
                frames
            };
            &&& k < bins.len()
            &&& bins[k].low == lowest(samples, channels, k * per_column, end)
            &&& bins[k].high == highest(samples, channels, k * per_column, end)
        }),
{
    lemma_column(samples, channels, frames, per_column, 0, k);
    assert((k + 1) * per_column == k * per_column + per_column) by (nonlinear_arith);
}

proof fn lemma_column(
    samples: Seq<Scalar>,
    channels: int,
    frames: int,
    per_column: int,
    from: int,
    k: int,
)
    requires
        0 < per_column,
        0 <= k,
        from + k * per_column < frames,
    ensures
        ({
            let bins = waveform(samples, channels, frames, per_column, from);
            let start = from + k * per_column;
            &&& k < bins.len()
            &&& bins[k] == (WaveBin {
                low: lowest(samples, channels, start, smaller(start + per_column, frames)),
                high: highest(samples, channels, start, smaller(start + per_column, frames)),
            })
        }),
    decreases k,
{
    if k > 0 {
        assert(k * per_column == (k - 1) * per_column + per_column) by (nonlinear_arith);
        assert(0 <= (k - 1) * per_column) by (nonlinear_arith)
            requires
                1 <= k,
                0 < per_column,
        ;
        lemma_column(samples, channels, frames, per_column, from + per_column, k - 1);
    } else {
        assert(k * per_column == 0) by (nonlinear_arith)
            requires
                k == 0,
        ;
    }
}

/// A column has as many frames as it must for the columns that are asked for to hold them
/// all, and not one more.
pub proof fn law_columns_are_as_wide_as_they_must(frames: int, columns: int)
    requires
        0 < frames,
        0 < columns,
    ensures
        ({
            let per = frames_per_column(frames, columns);
            &&& columns <= frames ==> per * columns >= frames && (per - 1) * columns < frames
            &&& columns > frames ==> per == 1
        }),
{
    let per = frames_per_column(frames, columns);
    if columns <= frames {
        let num = frames + columns - 1;
        vstd::arithmetic::div_mod::lemma_fundamental_div_mod(num, columns);
        assert(columns * per == per * columns) by (nonlinear_arith);
        assert((per - 1) * columns == per * columns - columns) by (nonlinear_arith);
        assert(0 <= num % columns < columns);
    } else {
        assert((frames + frames - 1) / frames == 1) by (nonlinear_arith)
            requires
                0 < frames,
        ;
    }
}

/// A pixel of a scaled image is that of the image at the same share of its width and height,
/// colour by colour.
pub proof fn law_pixels_keep_their_place(
    src: Seq<u8>,
    width: u32,
    height: u32,
    max: u32,
    x: int,
    y: int,
    colour: int,
)
    requires
        0 < max,
        0 < width,
        0 < height,
        src.len() == width * height * 4,
        width > max || height > max,
        ({
            let image = downscaled(src, width, height, max);
            0 <= x < image.1 && 0 <= y < image.2
        }),
        0 <= colour < 4,
    ensures
        ({
            let (pixels, w, h) = downscaled(src, width, height, max);
            pixels[(y * w + x) * 4 + colour] == src[((y * height / (h as int)) * width + (x * width
                / (w as int))) * 4 + colour]
        }),
{
    let (pixels, w, h) = downscaled(src, width, height, max);
    let i = (y * w + x) * 4 + colour;
    assert(i / 4 == y * w + x && i % 4 == colour);
    let p = y * w + x;
    assert(p / (w as int) == y && p % (w as int) == x) by (nonlinear_arith)
        requires
            p == y * w + x,
            0 <= x < w,
            0 <= y,
    ;
    assert(0 <= p < w * h) by (nonlinear_arith)
        requires
            p == y * w + x,
            0 <= x < w,
            0 <= y < h,
    ;
    assert(0 <= i < w * h * 4);
}

/// A file size below fifty-three bits is written in bytes up to a kibibyte, and beyond that
/// with one decimal in the greatest unit that it holds.
pub proof fn law_sizes_are_written_in_their_unit(bytes: nat)
    requires
        bytes < 0x20_0000_0000_0000,
    ensures
        bytes < 1024 ==> bytes_text(bytes) == decimal_text(bytes) + " B"@,
        1024 <= bytes < 1_048_576 ==> {
            let tenths = nearest_even(10 * bytes, 1024);
            bytes_text(bytes) == decimal_text(tenths / 10) + "."@ + decimal_text(tenths % 10)
                + " KiB"@
        },
        1_048_576 <= bytes < 1_073_741_824 ==> {
            let tenths = nearest_even(10 * bytes, 1_048_576);
            bytes_text(bytes) == decimal_text(tenths / 10) + "."@ + decimal_text(tenths % 10)
                + " MiB"@
        },
        bytes >= 1_073_741_824 ==> {
            let tenths = nearest_even(10 * bytes, 1_073_741_824);
            bytes_text(bytes) == decimal_text(tenths / 10) + "."@ + decimal_text(tenths % 10)
                + " GiB"@
        },
{
    let n = law_numbers_keep_fifty_three_bits(bytes);
    law_quotient_is_the_nearest(bytes, 1);
    assert(vstd::arithmetic::power2::pow2(0) == 1) by {
        vstd::arithmetic::power2::lemma2_to64();
    }
    assert(rounded_53(bytes) == bytes);
}

/// What went wrong with an asset is what the first failed import of its path says.
pub proof fn law_first_failure_is_told(records: Seq<ImportRecord>, path: Seq<char>) -> (k: int)
    ensures
        ({
            let told = failure_among(records, path, records.len());
            &&& told is Some ==> 0 <= k < records.len() && records[k].outcome
                == ImportOutcome::Failed(told->0) && same_path(records[k].relative_path@, path)
            &&& forall|i: int|
                0 <= i < records.len() && #[trigger] records[i].outcome is Failed && same_path(
                    records[i].relative_path@,
                    path,
                ) ==> told is Some && k <= i
        }),
{
    lemma_first_failure(records, path, records.len())
}

proof fn lemma_first_failure(records: Seq<ImportRecord>, path: Seq<char>, n: nat) -> (k: int)
    requires
        n <= records.len(),
    ensures
        ({
            let told = failure_among(records, path, n);
            &&& told is Some ==> 0 <= k < n && records[k].outcome == ImportOutcome::Failed(
                told->0,
            ) && same_path(records[k].relative_path@, path)
            &&& forall|i: int|
                0 <= i < n && #[trigger] records[i].outcome is Failed && same_path(
                    records[i].relative_path@,
                    path,
                ) ==> told is Some && k <= i
        }),
    decreases n,
{
    if n == 0 {
        0
    } else {
        let k = lemma_first_failure(records, path, (n - 1) as nat);
        if failure_among(records, path, (n - 1) as nat) is Some {
            k
        } else {
            n - 1
        }
    }
}

/// What the preview shows: nothing without a selected asset; the failure of one that could
/// not be imported; an asset that the importer holds, made anew unless what is kept is of
/// the same path and the same import; and that there is none of any other.
pub proof fn law_preview_shows_what_is_held<A>(
    entry: Option<AssetEntry>,
    importer: AssetImporter<A>,
    cached: Option<PreviewKey>,
)
    ensures
        ({
            let shown = preview_shown(entry, importer, cached);
            let failure = failure_among(
                importer.log(),
                entry->0.relative_path@,
                importer.log().len(),
            );
            let held = entry->0.id is Some && importer.held().contains_key(entry->0.id->0.value);
            &&& shown is Nothing <==> entry is None
            &&& shown is Failed <==> entry is Some && failure is Some
            &&& entry is Some && failure is Some ==> shown == PreviewShown::Failed(failure->0)
            &&& shown is Asset <==> entry is Some && failure is None && held
            &&& shown matches PreviewShown::Asset { rebuild } ==> (!rebuild <==> cached is Some
                && same_path(cached->0.path@, entry->0.relative_path@) && cached->0.pass_id
                == importer.passes())
        }),
{
}

/// The lines of a model and of a texture name each number by what it counts.
pub proof fn law_summaries_name_their_numbers(model: MeshSummary, texture: TextureSummary)
    ensures
        mesh_texts(model).0 == decimal_text(model.meshes as nat) + " meshes \u{b7} "@
            + decimal_text(model.vertices as nat) + " verts \u{b7} "@ + decimal_text(
            model.triangles as nat,
        ) + " tris"@,
        mesh_texts(model).1 == decimal_text(model.materials as nat) + " materials \u{b7} "@
            + decimal_text(model.images as nat) + " images \u{b7} "@ + decimal_text(
            model.skeletons as nat,
        ) + " skeletons"@,
        mesh_texts(model).2 == decimal_text(model.animations as nat) + " animations \u{b7} "@
            + decimal_text(model.cameras as nat) + " cameras"@,
        texture_text(texture) == decimal_text(texture.width as nat) + "\u{d7}"@ + decimal_text(
            texture.height as nat,
        ) + " \u{b7} "@ + decimal_text(texture.mip_levels as nat) + " mips \u{b7} "@
            + bytes_text(texture.level0_bytes as nat),
{
    assert(mesh_texts(model).0 =~= decimal_text(model.meshes as nat) + " meshes \u{b7} "@
        + decimal_text(model.vertices as nat) + " verts \u{b7} "@ + decimal_text(
        model.triangles as nat,
    ) + " tris"@);
    assert(mesh_texts(model).1 =~= decimal_text(model.materials as nat) + " materials \u{b7} "@
        + decimal_text(model.images as nat) + " images \u{b7} "@ + decimal_text(
        model.skeletons as nat,
    ) + " skeletons"@);
    assert(texture_text(texture) =~= decimal_text(texture.width as nat) + "\u{d7}"@
        + decimal_text(texture.height as nat) + " \u{b7} "@ + decimal_text(
        texture.mip_levels as nat,
    ) + " mips \u{b7} "@ + bytes_text(texture.level0_bytes as nat));
}

/// Sound without a channel is counted as if it had one.
pub proof fn law_sound_has_a_channel(channels: u16)
    ensures
        channel_count(channels) >= 1,
        channels > 0 ==> channel_count(channels) == channels,
        channels == 0 ==> channel_count(channels) == 1,
{
}

/// What is said where no asset is shown.
pub proof fn law_notices_say_why_nothing_is_shown(shown: PreviewShown)
    ensures
        shown is Asset <==> shown.notice_text() is None,
        shown is Nothing ==> shown.notice_text() == Some("Select an asset."@),
        shown is Unavailable ==> shown.notice_text() == Some("No preview for this asset kind."@),
        shown matches PreviewShown::Failed(message) ==> shown.notice_text() == Some(
            "No preview \u{2014} "@ + message@,
        ),
{
}

} // verus!
