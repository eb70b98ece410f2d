//! Laying out a tilepalquant result: the palettes back to back, each led by
//! the transparent index 0 when the target has one, and every pixel an index
//! into them, its palette times the stride plus its color.

use vstd::prelude::*;
use crate::engine::QuantizeResult;
use crate::formats::BGRA8;

verus! {

/// How one output pixel was resolved: the palette of its tile, and its
/// color in that palette, or `None` when index 0 claims it.
#[derive(Clone, Copy, Debug, PartialEq, Eq)]
pub struct PixelChoice {
    pub palette: usize,
    pub color: Option<usize>,
}

/// An opaque palette entry of color `c`.
pub open spec fn opaque_entry(c: [u8; 3]) -> BGRA8 {
    BGRA8 { b: c[2], g: c[1], r: c[0], a: 255 }
}

/// The entries of one palette: the transparent index 0 in color `first`,
/// when there is one, then each color opaque.
pub open spec fn palette_block(palette: Seq<[u8; 3]>, first: Option<[u8; 3]>) -> Seq<BGRA8> {
    let head = match first {
        Some(c) => seq![BGRA8 { b: c[2], g: c[1], r: c[0], a: 0 }],
        None => Seq::empty(),
    };
    head + palette.map_values(|c: [u8; 3]| opaque_entry(c))
}

/// The entries of every palette, back to back.
pub open spec fn palette_entries(palettes: Seq<Seq<[u8; 3]>>, first: Option<[u8; 3]>) -> Seq<BGRA8>
    decreases palettes.len(),
{
    if palettes.len() == 0 {
        Seq::empty()
    } else {
        palette_entries(palettes.drop_last(), first) + palette_block(palettes.last(), first)
    }
}

/// The index of a pixel resolved as `choice`: its palette times `stride`,
/// plus its color shifted past the `adjusted` entries ahead of the colors,
/// or the palette's index 0 when index 0 claims it.
pub open spec fn choice_index(choice: PixelChoice, stride: nat, adjusted: nat) -> nat {
    (choice.palette * stride + match choice.color {
        Some(c) => c + adjusted,
        None => 0,
    }) as nat
}

/// How many entries lead each palette: one for a transparent index 0.
pub open spec fn leading(first: Option<[u8; 3]>) -> nat {
    if first is Some { 1 } else { 0 }
}

proof fn lemma_entries_len(palettes: Seq<Seq<[u8; 3]>>, first: Option<[u8; 3]>, len: nat)
    requires
        forall|p: int| 0 <= p < palettes.len() ==> (#[trigger] palettes[p]).len() == len,
    ensures
        palette_entries(palettes, first).len() == palettes.len() * (len + leading(first)),
    decreases palettes.len(),
{
    if palettes.len() > 0 {
        lemma_entries_len(palettes.drop_last(), first, len);
        assert(palettes.len() * (len + leading(first)) == (palettes.len() - 1) * (len + leading(first)) + (len
            + leading(first))) by (nonlinear_arith);
    }
}

fn push_block(out: &mut Vec<BGRA8>, palette: &Vec<[u8; 3]>, first: Option<[u8; 3]>)
    ensures
        final(out)@ == old(out)@ + palette_block(palette@, first),
{
    let ghost start = out@;
    if let Some(c) = first {
        out.push(BGRA8 { b: c[2], g: c[1], r: c[0], a: 0 });
    }
    let ghost head = out@;
    let mut i: usize = 0;
    while i < palette.len()
        invariant
            i <= palette@.len(),
            out@ == head + palette@.take(i as int).map_values(|c: [u8; 3]| opaque_entry(c)),
        decreases palette@.len() - i,
    {
        let c = palette[i];
        out.push(BGRA8 { b: c[2], g: c[1], r: c[0], a: 255 });
        proof {
            assert(palette@.take(i + 1).map_values(|c: [u8; 3]| opaque_entry(c)) =~= palette@.take(
                i as int,
            ).map_values(|c: [u8; 3]| opaque_entry(c)).push(opaque_entry(c)));
        }
        i += 1;
    }
    proof {
        assert(palette@.take(i as int) =~= palette@);
        assert(out@ =~= start + palette_block(palette@, first));
    }
}

/// The result of a run whose palettes (all the same length, already
/// snapped to the target levels) are `palettes` and whose pixels, row by
/// row, were resolved as `choices`. With a transparent index 0 every
/// palette is led by `first_color`, so the stride is one more than the
/// palette length.
pub fn assemble_output(
    palettes: &Vec<Vec<[u8; 3]>>,
    first_color: Option<[u8; 3]>,
    choices: &Vec<PixelChoice>,
    width: u32,
    height: u32,
) -> (result: QuantizeResult)
    requires
        palettes@.len() >= 1,
        forall|p: int| 0 <= p < palettes@.len() ==> (#[trigger] palettes@[p])@.len() == palettes@[0]@.len(),
        palettes@.len() * (palettes@[0]@.len() + leading(first_color)) <= 256,
        forall|j: int|
            0 <= j < choices@.len() ==> (#[trigger] choices@[j]).palette < palettes@.len() && (
            choices@[j].color matches Some(c) ==> c < palettes@[0]@.len()),
    ensures
        result.colors_per_palette == palettes@[0]@.len() + leading(first_color),
        result.palette_data@ == palette_entries(palettes@.map_values(|p: Vec<[u8; 3]>| p@), first_color),
        result.palette_data@.len() == palettes@.len() * result.colors_per_palette,
        result.indexed_data@.len() == choices@.len(),
        forall|j: int|
            0 <= j < choices@.len() ==> #[trigger] result.indexed_data@[j] as nat == choice_index(
                choices@[j],
                result.colors_per_palette as nat,
                leading(first_color),
            ),
        result.colors_per_palette > 0 ==> forall|j: int|
            0 <= j < choices@.len() ==> #[trigger] result.indexed_data@[j] < result.palette_data@.len(),
        result.width == width,
        result.height == height,
{
    let adjusted: usize = if first_color.is_some() { 1 } else { 0 };
    assert(palettes@[0]@.len() + adjusted <= 256) by (nonlinear_arith)
        requires
            palettes@.len() >= 1,
            palettes@.len() * (palettes@[0]@.len() + adjusted) <= 256,
    ;
    let stride: usize = palettes[0].len() + adjusted;
    let ghost views = palettes@.map_values(|p: Vec<[u8; 3]>| p@);
    let mut palette_data: Vec<BGRA8> = Vec::new();
    let mut p: usize = 0;
    while p < palettes.len()
        invariant
            p <= palettes@.len(),
            views == palettes@.map_values(|p: Vec<[u8; 3]>| p@),
            palette_data@ == palette_entries(views.take(p as int), first_color),
        decreases palettes@.len() - p,
    {
        push_block(&mut palette_data, &palettes[p], first_color);
        proof {
            assert(views.take(p + 1).drop_last() =~= views.take(p as int));
        }
        p += 1;
    }
    proof {
        assert(views.take(p as int) =~= views);
        assert forall|q: int| 0 <= q < views.len() implies (#[trigger] views[q]).len() == palettes@[0]@.len() by {
            assert(views[q] == palettes@[q]@);
        }
        lemma_entries_len(views, first_color, palettes@[0]@.len());
    }
    let ghost n = palettes@.len();
    let ghost len = palettes@[0]@.len();
    let mut indexed_data: Vec<u8> = Vec::new();
    let mut j: usize = 0;
    while j < choices.len()
        invariant
            j <= choices@.len(),
            n == palettes@.len(),
            len == palettes@[0]@.len(),
            stride == len + adjusted,
            adjusted == leading(first_color),
            n * stride <= 256,
            forall|k: int|
                0 <= k < choices@.len() ==> (#[trigger] choices@[k]).palette < n && (choices@[k].color matches Some(
                    c,
                ) ==> c < len),
            indexed_data@.len() == j,
            forall|k: int|
                0 <= k < j ==> #[trigger] indexed_data@[k] as nat == choice_index(
                    choices@[k],
                    stride as nat,
                    adjusted as nat,
                ),
        decreases choices@.len() - j,
    {
        let choice = choices[j];
        proof {
            assert(choice.palette * stride + stride <= n * stride) by (nonlinear_arith)
                requires
                    choice.palette < n,
            ;
        }
        let base: usize = choice.palette * stride;
        let index: usize = match choice.color {
            Some(c) => base + c + adjusted,
            None => base,
        };
        proof {
            assert(index < 256 || stride == 0);
            assert(index as nat == choice_index(choice, stride as nat, adjusted as nat));
        }
        indexed_data.push(index as u8);
        j += 1;
    }
    proof {
        if stride > 0 {
            assert forall|k: int| 0 <= k < choices@.len() implies #[trigger] indexed_data@[k] < palette_data@.len() by {
                let choice = choices@[k];
                assert(choice.palette * stride + stride <= n * stride) by (nonlinear_arith)
                    requires
                        choice.palette < n,
                ;
                assert(indexed_data@[k] as nat == choice_index(choice, stride as nat, adjusted as nat));
            }
        }
    }
    QuantizeResult { indexed_data, palette_data, colors_per_palette: stride, width, height }
}

} // verus!
