//! Completed outputs kept alongside the settings that produced them.
//!
//! An entry holds the full resolution indexed image (deflate compressed) so
//! it can be exported without re-running the pipeline, a thumbnail for the
//! list, and the settings the image came from.

use vstd::prelude::*;
use std::time::Instant;
use crate::formats::BGRA8;
use crate::indexed::{ImageDataIndexed, effective_row_len};
use crate::text::{decimal, push_decimal, push_str};

verus! {

/// Maximum number of entries kept; the oldest are dropped past this.
pub const CAP: usize = 50;

/// Longest side of a thumbnail, in pixels.
pub const THUMBNAIL_SIZE: u32 = 160;

/// Deflate level used for the indexed pixels: a compromise between the
/// time spent on the UI thread and the memory an entry occupies.
pub const COMPRESSION_LEVEL: u8 = 6;

/// What `miniz_oxide::deflate::compress_to_vec` makes of `data` at `level`.
pub uninterp spec fn deflated(data: Seq<u8>, level: u8) -> Seq<u8>;

/// What `miniz_oxide::inflate::decompress_to_vec` makes of `data`: the
/// inflated bytes, or `None` when `data` is not a deflate stream.
pub uninterp spec fn inflated(data: Seq<u8>) -> Option<Seq<u8>>;

/// `miniz_oxide::deflate::compress_to_vec`: `data` deflate compressed at
/// `level`. The contract only names the result; its bytes are the crate's.
#[verifier::external_body]
fn deflate(data: &[u8], level: u8) -> (out: Vec<u8>)
    ensures
        out@ == deflated(data@, level),
{
    miniz_oxide::deflate::compress_to_vec(data, level)
}

/// `miniz_oxide::inflate::decompress_to_vec`: `data` inflated, failing when
/// it is not a deflate stream. The contract claims that a stream the crate's
/// own compressor made (at a level it documents, 0 to 10) inflates back to
/// exactly the bytes it was made from. On failure the error is the crate's
/// `DecompressError` written with `{:?}`; what that text reads is not stated.
#[verifier::external_body]
fn inflate(data: &[u8]) -> (out: Result<Vec<u8>, String>)
    ensures
        out is Ok <==> inflated(data@) is Some,
        out is Ok ==> inflated(data@) == Some(out->Ok_0@),
        forall|source: Seq<u8>, level: u8|
            level <= 10 && data@ == #[trigger] deflated(source, level) ==> out is Ok
                && out->Ok_0@ == source,
{
    miniz_oxide::inflate::decompress_to_vec(data).map_err(|e| format!("{e:?}"))
}

/// A downscaled RGBA copy of a result, for the list.
pub struct Thumbnail {
    pub width: u32,
    pub height: u32,
    pub rgba: Vec<u8>,
}

/// One completed output, with the settings `S` it was produced with.
pub struct StoredResult<S> {
    /// Of the indexed pixels and the palettes, for duplicate detection.
    pub hash: u64,
    /// The settings the image was produced with.
    pub settings: S,
    pub width: u32,
    pub height: u32,
    pub colors_per_palette: usize,
    pub palettes: Vec<BGRA8>,
    /// Indexed pixels, deflate compressed; [`StoredResult::decode`] restores them.
    pub pixels: Vec<u8>,
    /// The indexed pixels `pixels` was compressed from.
    pub source: Ghost<Seq<u8>>,
    pub thumbnail: Thumbnail,
    pub created: Instant,
}

/// The message `decode` gives for `len` decompressed bytes where
/// `expected` were due.
pub open spec fn wrong_size_message(len: nat, expected: nat) -> Seq<char> {
    "Result pixels are "@ + decimal(len) + " bytes, expected "@ + decimal(expected)
}

impl<S> StoredResult<S> {
    /// The indexed pixels the entry holds.
    pub open spec fn source(&self) -> Seq<u8> {
        self.source@
    }

    /// The compressed pixels are what the crate's compressor made of the
    /// pixels the entry holds.
    pub open spec fn wf(&self) -> bool {
        &&& self.pixels@ == deflated(self.source@, COMPRESSION_LEVEL)
        &&& self.hash == spec_hash_result(self.source@, self.palettes@)
    }

    /// Rebuild the full resolution indexed image: the pixels the entry was
    /// recorded with, over its palettes, when they are `width * height`
    /// pixels.
    pub fn decode(&self) -> (r: Result<ImageDataIndexed, String>)
        requires
            self.wf(),
            self.width * self.height <= usize::MAX,
        ensures
            self.source().len() == self.width * self.height ==> r is Ok,
            r matches Ok(image) ==> {
                &&& image.wf()
                &&& image.indexed_pixels@ == self.source()
                &&& image.palettes@ == self.palettes@
                &&& image.row_len() == effective_row_len(
                    self.palettes@.len(),
                    self.colors_per_palette as nat,
                )
            },
            r matches Err(message) ==> message@ == wrong_size_message(
                self.source().len(),
                (self.width * self.height) as nat,
            ),
    {
        let pixels = match inflate(&self.pixels) {
            Ok(pixels) => pixels,
            Err(e) => {
                let mut m = String::from_str("Failed to decompress result pixels: ");
                push_str(&mut m, e.as_str());
                return Err(m);
            },
        };
        let expected: usize = self.width as usize * self.height as usize;
        if pixels.len() != expected {
            let mut m = String::new();
            push_str(&mut m, "Result pixels are ");
            push_decimal(&mut m, pixels.len() as u64);
            push_str(&mut m, " bytes, expected ");
            push_decimal(&mut m, expected as u64);
            return Err(m);
        }
        Ok(ImageDataIndexed::new(self.palettes.clone(), self.colors_per_palette, pixels))
    }

    /// Size of the compressed pixels in bytes.
    pub fn compressed_len(&self) -> (n: usize)
        requires
            self.wf(),
        ensures
            n == deflated(self.source(), COMPRESSION_LEVEL).len(),
    {
        self.pixels.len()
    }
}

/// FNV-1a offset basis.
pub const FNV_OFFSET: u64 = 0xcbf2_9ce4_8422_2325;

/// FNV-1a prime.
pub const FNV_PRIME: u64 = 0x0000_0100_0000_01b3;

/// One FNV-1a step: `byte` mixed into `hash`.
pub open spec fn fnv_step(hash: u64, byte: u8) -> u64 {
    vstd::wrapping::u64_specs::wrapping_mul(hash ^ (byte as u64), FNV_PRIME)
}

/// FNV-1a over `bytes`, starting from `hash`.
pub open spec fn fnv(hash: u64, bytes: Seq<u8>) -> u64
    decreases bytes.len(),
{
    if bytes.len() == 0 {
        hash
    } else {
        fnv_step(fnv(hash, bytes.drop_last()), bytes.last())
    }
}

/// The palette entries as bytes, blue, green, red and alpha of each in turn.
pub open spec fn palette_bytes(palettes: Seq<BGRA8>) -> Seq<u8>
    decreases palettes.len(),
{
    if palettes.len() == 0 {
        Seq::<u8>::empty()
    } else {
        let c = palettes.last();
        palette_bytes(palettes.drop_last()) + seq![c.b, c.g, c.r, c.a]
    }
}

/// FNV-1a over the pixels followed by the palette bytes.
pub open spec fn spec_hash_result(pixels: Seq<u8>, palettes: Seq<BGRA8>) -> u64 {
    fnv(FNV_OFFSET, pixels + palette_bytes(palettes))
}

proof fn lemma_fnv_push(hash: u64, bytes: Seq<u8>, byte: u8)
    ensures
        fnv(hash, bytes.push(byte)) == fnv_step(fnv(hash, bytes), byte),
{
    assert(bytes.push(byte).drop_last() =~= bytes);
}

/// Mix `byte` into `hash`.
fn eat(hash: u64, byte: u8) -> (h: u64)
    ensures
        h == fnv_step(hash, byte),
{
    (hash ^ (byte as u64)).wrapping_mul(FNV_PRIME)
}

/// FNV-1a over the pixels followed by the palette bytes.
pub fn hash_result(pixels: &[u8], palettes: &[BGRA8]) -> (hash: u64)
    ensures
        hash == spec_hash_result(pixels@, palettes@),
{
    let mut hash: u64 = FNV_OFFSET;
    let mut i: usize = 0;
    while i < pixels.len()
        invariant
            i <= pixels@.len(),
            hash == fnv(FNV_OFFSET, pixels@.take(i as int)),
        decreases pixels.len() - i,
    {
        proof {
            assert(pixels@.take(i as int + 1) =~= pixels@.take(i as int).push(pixels@[i as int]));
            lemma_fnv_push(FNV_OFFSET, pixels@.take(i as int), pixels@[i as int]);
        }
        hash = eat(hash, pixels[i]);
        i += 1;
    }
    assert(pixels@.take(pixels@.len() as int) =~= pixels@);
    assert(palette_bytes(palettes@.take(0)) =~= Seq::<u8>::empty());
    assert(pixels@ + palette_bytes(palettes@.take(0)) =~= pixels@);
    let mut k: usize = 0;
    while k < palettes.len()
        invariant
            k <= palettes@.len(),
            hash == fnv(FNV_OFFSET, pixels@ + palette_bytes(palettes@.take(k as int))),
        decreases palettes.len() - k,
    {
        let c = palettes[k];
        let ghost before = pixels@ + palette_bytes(palettes@.take(k as int));
        proof {
            let t1 = palettes@.take(k as int + 1);
            assert(t1.drop_last() =~= palettes@.take(k as int));
            assert(t1.last() == c);
            assert(pixels@ + palette_bytes(t1) =~= before.push(c.b).push(c.g).push(c.r).push(c.a));
            lemma_fnv_push(FNV_OFFSET, before, c.b);
            lemma_fnv_push(FNV_OFFSET, before.push(c.b), c.g);
            lemma_fnv_push(FNV_OFFSET, before.push(c.b).push(c.g), c.r);
            lemma_fnv_push(FNV_OFFSET, before.push(c.b).push(c.g).push(c.r), c.a);
        }
        hash = eat(hash, c.b);
        hash = eat(hash, c.g);
        hash = eat(hash, c.r);
        hash = eat(hash, c.a);
        k += 1;
    }
    assert(palettes@.take(palettes@.len() as int) =~= palettes@);
    hash
}

/// A change of the list order that the panel animates.
#[derive(Debug, Clone, Copy, PartialEq, Eq, Structural)]
pub enum ChangeKind {
    /// A result that was not in the list is now at its top.
    Added { hash: u64 },
    /// The result drawn at `old_index` is now at the top.
    Moved { hash: u64, old_index: usize },
}

impl ChangeKind {
    pub open spec fn spec_hash(self) -> u64 {
        match self {
            ChangeKind::Added { hash } => hash,
            ChangeKind::Moved { hash, old_index: _ } => hash,
        }
    }

    /// The result that reached the top.
    pub fn hash(self) -> (h: u64)
        ensures
            h == self.spec_hash(),
    {
        match self {
            ChangeKind::Added { hash } => hash,
            ChangeKind::Moved { hash, old_index: _ } => hash,
        }
    }
}

/// The first position of `hash` in `order`, if it occurs.
pub open spec fn first_position(order: Seq<u64>, hash: u64) -> Option<int>
    decreases order.len(),
{
    if order.len() == 0 {
        None
    } else if order[0] == hash {
        Some(0)
    } else {
        match first_position(order.drop_first(), hash) {
            Some(p) => Some(p + 1),
            None => None,
        }
    }
}

/// `order` without the entry at `index`; all of `order` when `index` is past
/// its end.
pub open spec fn spec_skipping(order: Seq<u64>, index: int) -> Seq<u64> {
    if 0 <= index < order.len() {
        order.remove(index)
    } else {
        order
    }
}

/// How the order `now` differs from the order `last`, for the two changes
/// the panel animates: a hash new at the top with the rest unchanged, or a
/// hash taken from further down to the top with the rest unchanged.
/// Anything else is `None`.
pub open spec fn spec_detect_change(last: Seq<u64>, now: Seq<u64>) -> Option<ChangeKind> {
    if now.len() == 0 {
        None
    } else {
        let hash = now[0];
        let rest = now.drop_first();
        match first_position(last, hash) {
            None => if rest == last {
                Some(ChangeKind::Added { hash })
            } else {
                None
            },
            Some(i) => if i > 0 && spec_skipping(last, i) == rest {
                Some(ChangeKind::Moved { hash, old_index: i as usize })
            } else {
                None
            },
        }
    }
}

proof fn lemma_first_position(order: Seq<u64>, hash: u64)
    ensures
        match first_position(order, hash) {
            Some(p) => 0 <= p < order.len() && order[p] == hash && forall|q: int|
                0 <= q < p ==> order[q] != hash,
            None => forall|q: int| 0 <= q < order.len() ==> order[q] != hash,
        },
    decreases order.len(),
{
    if order.len() > 0 {
        lemma_first_position(order.drop_first(), hash);
        if order[0] != hash {
            match first_position(order.drop_first(), hash) {
                Some(p) => {
                    assert forall|q: int| 0 <= q < p + 1 implies order[q] != hash by {
                        if q > 0 {
                            assert(order[q] == order.drop_first()[q - 1]);
                        }
                    }
                },
                None => {
                    assert forall|q: int| 0 <= q < order.len() implies order[q] != hash by {
                        if q > 0 {
                            assert(order[q] == order.drop_first()[q - 1]);
                        }
                    }
                },
            }
        }
    }
}

/// `order` without the hash at `index`.
pub fn skipping(order: &[u64], index: usize) -> (rest: Vec<u64>)
    ensures
        rest@ == spec_skipping(order@, index as int),
{
    let mut rest: Vec<u64> = Vec::new();
    let mut at: usize = 0;
    while at < order.len()
        invariant
            at <= order@.len(),
            rest@ == spec_skipping(order@.take(at as int), index as int),
        decreases order.len() - at,
    {
        proof {
            let t = order@.take(at as int);
            let t1 = order@.take(at as int + 1);
            assert(t1 == t.push(order@[at as int]));
            if (index as int) < at as int {
                assert(t1.remove(index as int) =~= t.remove(index as int).push(order@[at as int]));
            } else if index as int == at as int {
                assert(t1.remove(index as int) =~= t);
            }
        }
        if at != index {
            rest.push(order[at]);
        }
        at += 1;
    }
    assert(order@.take(order@.len() as int) =~= order@);
    rest
}

/// Whether `a` and `b` hold the same hashes in the same order.
fn same_order(a: &[u64], b: &[u64]) -> (same: bool)
    ensures
        same == (a@ == b@),
{
    if a.len() != b.len() {
        return false;
    }
    let mut i: usize = 0;
    while i < a.len()
        invariant
            a@.len() == b@.len(),
            i <= a@.len(),
            forall|j: int| 0 <= j < i ==> a@[j] == b@[j],
        decreases a.len() - i,
    {
        if a[i] != b[i] {
            return false;
        }
        i += 1;
    }
    assert(a@ =~= b@);
    true
}

/// The first position of `hash` in `order`.
fn position(order: &[u64], hash: u64) -> (p: Option<usize>)
    ensures
        match p {
            Some(i) => first_position(order@, hash) == Some(i as int),
            None => first_position(order@, hash) is None,
        },
{
    proof {
        lemma_first_position(order@, hash);
    }
    let mut i: usize = 0;
    while i < order.len()
        invariant
            i <= order@.len(),
            forall|q: int| 0 <= q < i ==> order@[q] != hash,
            match first_position(order@, hash) {
                Some(p) => 0 <= p < order@.len() && order@[p] == hash && forall|q: int|
                    0 <= q < p ==> order@[q] != hash,
                None => forall|q: int| 0 <= q < order@.len() ==> order@[q] != hash,
            },
        decreases order.len() - i,
    {
        if order[i] == hash {
            return Some(i);
        }
        i += 1;
    }
    None
}

/// How the order `now` differs from the order `last`, for the two changes the
/// panel animates. Anything else -- a removal, an emptied list, several
/// changes at once -- is `None`.
pub fn detect_change(last: &[u64], now: &[u64]) -> (change: Option<ChangeKind>)
    ensures
        change == spec_detect_change(last@, now@),
{
    if now.len() == 0 {
        return None;
    }
    let hash: u64 = now[0];
    let rest: &[u64] = slice_from(now, 1);
    match position(last, hash) {
        None => {
            if same_order(rest, last) {
                Some(ChangeKind::Added { hash })
            } else {
                None
            }
        },
        Some(old_index) => {
            if old_index > 0 {
                let others = skipping(last, old_index);
                if same_order(others.as_slice(), rest) {
                    return Some(ChangeKind::Moved { hash, old_index });
                }
            }
            None
        },
    }
}

/// The order change being animated, and when it started.
pub struct ResultsAnimation {
    pub kind: ChangeKind,
    pub started: Instant,
}

/// What the results panel remembers between frames.
pub struct ResultsView {
    /// Hashes in the order the entries were drawn in.
    pub last_order: Vec<u64>,
    pub animation: Option<ResultsAnimation>,
}

impl ResultsView {
    /// Take in the order the entries are drawn in this frame, at `now`. An
    /// empty list forgets the order and any animation; a changed order
    /// starts the animation of its change, or stops animating when the
    /// change is not one the panel animates; an unchanged one keeps
    /// everything as it is.
    pub fn observe_order(&mut self, order: Vec<u64>, now: Instant)
        ensures
            order@.len() == 0 ==> final(self).last_order@.len() == 0 && final(self).animation is None,
            order@.len() > 0 && order@ == old(self).last_order@ ==> final(self).last_order@ == old(
                self,
            ).last_order@ && final(self).animation == old(self).animation,
            order@.len() > 0 && order@ != old(self).last_order@ ==> {
                &&& final(self).last_order@ == order@
                &&& final(self).animation == match spec_detect_change(old(self).last_order@, order@) {
                    Some(kind) => Some(ResultsAnimation { kind, started: now }),
                    None => None,
                }
            },
    {
        if order.len() == 0 {
            self.last_order = Vec::new();
            self.animation = None;
        } else if !same_order(order.as_slice(), self.last_order.as_slice()) {
            self.animation = match detect_change(self.last_order.as_slice(), order.as_slice()) {
                Some(kind) => Some(ResultsAnimation { kind, started: now }),
                None => None,
            };
            self.last_order = order;
        }
    }
}

/// `s` from position `start` on.
fn slice_from(s: &[u64], start: usize) -> (tail: &[u64])
    requires
        start <= s@.len(),
    ensures
        tail@ == s@.subrange(start as int, s@.len() as int),
{
    let (_, tail) = s.split_at(start);
    tail
}

/// The hashes of `entries`, in order.
pub open spec fn hashes_of<S>(entries: Seq<StoredResult<S>>) -> Seq<u64> {
    entries.map_values(|e: StoredResult<S>| e.hash)
}

/// No hash occurs twice.
pub open spec fn distinct_hashes<S>(entries: Seq<StoredResult<S>>) -> bool {
    forall|i: int, j: int|
        0 <= i < entries.len() && 0 <= j < entries.len() && i != j ==> (#[trigger] entries[i]).hash
            != (#[trigger] entries[j]).hash
}

/// The recorded results, newest first, with the settings `S` each was
/// produced with.
pub struct Results<S> {
    entries: Vec<StoredResult<S>>,
    cap: usize,
}

impl<S> View for Results<S> {
    type V = Seq<StoredResult<S>>;

    closed spec fn view(&self) -> Seq<StoredResult<S>> {
        self.entries@
    }
}

impl<S> Results<S> {
    /// The most entries the list keeps.
    pub closed spec fn capacity(&self) -> nat {
        self.cap as nat
    }

    /// At most `capacity` entries, at least one allowed, no hash twice, and
    /// every entry decodable to the pixels it hashes.
    pub closed spec fn wf(&self) -> bool {
        &&& 1 <= self.cap
        &&& self.entries@.len() <= self.cap
        &&& distinct_hashes(self.entries@)
        &&& forall|i: int| 0 <= i < self.entries@.len() ==> (#[trigger] self.entries@[i]).wf()
    }

    /// An empty list keeping at most `cap` entries (at least one).
    pub fn new(cap: usize) -> (results: Self)
        ensures
            results.wf(),
            results@.len() == 0,
            results.capacity() == if cap == 0 { 1 } else { cap as nat },
    {
        Results { entries: Vec::new(), cap: if cap == 0 { 1 } else { cap } }
    }

    /// Record `indexed` as the newest entry.
    ///
    /// An image already in the list (same hash) is moved to the front with
    /// its settings and timestamp refreshed rather than stored twice;
    /// `true` means a new entry was added. The thumbnail is the one the list
    /// shows for a new entry.
    pub fn record(
        &mut self,
        indexed: &ImageDataIndexed,
        thumbnail: Thumbnail,
        width: u32,
        height: u32,
        settings: S,
        now: Instant,
    ) -> (added: bool)
        requires
            old(self).wf(),
        ensures
            final(self).wf(),
            final(self).capacity() == old(self).capacity(),
            ({
                let hash = spec_hash_result(indexed.indexed_pixels@, indexed.palettes@);
                match first_position(hashes_of(old(self)@), hash) {
                    None => {
                        let n = if old(self)@.len() + 1 <= old(self).capacity() {
                            old(self)@.len() + 1
                        } else {
                            old(self).capacity()
                        };
                        &&& added
                        &&& final(self)@.len() == n
                        &&& final(self)@[0].hash == hash
                        &&& final(self)@[0].settings == settings
                        &&& final(self)@[0].width == width
                        &&& final(self)@[0].height == height
                        &&& final(self)@[0].colors_per_palette == indexed.row_len()
                        &&& final(self)@[0].palettes@ == indexed.palettes@
                        &&& final(self)@[0].source() == indexed.indexed_pixels@
                        &&& final(self)@[0].thumbnail == thumbnail
                        &&& final(self)@[0].created == now
                        &&& final(self)@.drop_first() == old(self)@.take(n - 1)
                    },
                    Some(k) => {
                        let was = old(self)@[k];
                        &&& !added
                        &&& final(self)@[0] == StoredResult { settings, created: now, ..was }
                        &&& final(self)@.drop_first() == old(self)@.remove(k)
                    },
                }
            }),
    {
        let hash = hash_result(&indexed.indexed_pixels, &indexed.palettes);
        proof {
            lemma_first_position(hashes_of(self@), hash);
        }
        match self.find_hash(hash) {
            Some(i) => {
                self.move_to_front(i, settings, now);
                false
            },
            None => {
                let entry = StoredResult {
                    hash,
                    settings,
                    width,
                    height,
                    colors_per_palette: indexed.colors_per_palette(),
                    palettes: indexed.palettes.clone(),
                    pixels: deflate(&indexed.indexed_pixels, COMPRESSION_LEVEL),
                    source: Ghost(indexed.indexed_pixels@),
                    thumbnail,
                    created: now,
                };
                self.push_front(entry);
                true
            },
        }
    }

    /// The position of the entry with `hash`, if any.
    pub fn find_hash(&self, hash: u64) -> (found: Option<usize>)
        ensures
            match found {
                Some(i) => first_position(hashes_of(self@), hash) == Some(i as int),
                None => first_position(hashes_of(self@), hash) is None,
            },
    {
        let ghost hashes = hashes_of(self.entries@);
        proof {
            lemma_first_position(hashes, hash);
        }
        let mut i: usize = 0;
        while i < self.entries.len()
            invariant
                i <= self.entries@.len(),
                hashes == hashes_of(self.entries@),
                hashes.len() == self.entries@.len(),
                forall|q: int| 0 <= q < i ==> hashes[q] != hash,
                match first_position(hashes, hash) {
                    Some(p) => 0 <= p < hashes.len() && hashes[p] == hash && forall|q: int|
                        0 <= q < p ==> hashes[q] != hash,
                    None => forall|q: int| 0 <= q < hashes.len() ==> hashes[q] != hash,
                },
            decreases self.entries.len() - i,
        {
            assert(hashes[i as int] == self.entries@[i as int].hash);
            if self.entries[i].hash == hash {
                return Some(i);
            }
            i += 1;
        }
        None
    }

    /// Move the entry at `i` to the front, with `settings` and `now` in place
    /// of its own.
    fn move_to_front(&mut self, i: usize, settings: S, now: Instant)
        requires
            old(self).wf(),
            i < old(self)@.len(),
        ensures
            final(self).wf(),
            final(self).capacity() == old(self).capacity(),
            final(self)@[0] == (StoredResult { settings, created: now, ..old(self)@[i as int] }),
            final(self)@.drop_first() == old(self)@.remove(i as int),
    {
        let ghost before = self.entries@;
        let mut entry = self.entries.remove(i);
        entry.settings = settings;
        entry.created = now;
        let ghost middle = self.entries@;
        self.entries.insert(0, entry);
        proof {
            before.remove_ensures(i as int);
            middle.insert_ensures(0, entry);
            assert(self.entries@.drop_first() =~= middle);
            assert forall|a: int| 0 <= a < self.entries@.len() implies self.entries@[a] == (if a
                == 0 {
                entry
            } else if a - 1 < i {
                before[a - 1]
            } else {
                before[a]
            }) by {
                if a > 0 {
                    assert(self.entries@[a] == middle[a - 1]);
                }
            }
            assert forall|a: int, b: int|
                0 <= a < self.entries@.len() && 0 <= b < self.entries@.len() && a != b
                    implies (#[trigger] self.entries@[a]).hash
                    != (#[trigger] self.entries@[b]).hash by {
                let oa = if a == 0 { i as int } else if a - 1 < i { a - 1 } else { a };
                let ob = if b == 0 { i as int } else if b - 1 < i { b - 1 } else { b };
                assert(self.entries@[a].hash == before[oa].hash);
                assert(self.entries@[b].hash == before[ob].hash);
            }
            assert forall|a: int| 0 <= a < self.entries@.len() implies (
            #[trigger] self.entries@[a]).wf() by {
                let oa = if a == 0 { i as int } else if a - 1 < i { a - 1 } else { a };
                assert(before[oa].wf());
            }
        }
    }

    /// Put `entry`, whose hash no entry has, at the front, dropping the
    /// oldest entry past the capacity.
    fn push_front(&mut self, entry: StoredResult<S>)
        requires
            old(self).wf(),
            entry.wf(),
            first_position(hashes_of(old(self)@), entry.hash) is None,
        ensures
            final(self).wf(),
            final(self).capacity() == old(self).capacity(),
            ({
                let n = if old(self)@.len() + 1 <= old(self).capacity() {
                    old(self)@.len() + 1
                } else {
                    old(self).capacity()
                };
                &&& final(self)@.len() == n
                &&& final(self)@[0] == entry
                &&& final(self)@.drop_first() == old(self)@.take(n - 1)
            }),
    {
        let ghost before = self.entries@;
        proof {
            lemma_first_position(hashes_of(before), entry.hash);
        }
        self.entries.insert(0, entry);
        let ghost middle = self.entries@;
        self.entries.truncate(self.cap);
        proof {
            before.insert_ensures(0, entry);
            let n: int = if before.len() + 1 <= self.cap { before.len() + 1int } else { self.cap as int };
            assert(self.entries@ =~= middle.subrange(0, n));
            assert forall|a: int| 0 <= a < self.entries@.len() implies self.entries@[a] == (if a
                == 0 {
                entry
            } else {
                before[a - 1]
            }) by {
                if a > 0 {
                    assert(middle[a] == before[a - 1]);
                }
            }
            assert(self.entries@.drop_first() =~= before.take(n - 1));
            assert forall|a: int, b: int|
                0 <= a < self.entries@.len() && 0 <= b < self.entries@.len() && a != b
                    implies (#[trigger] self.entries@[a]).hash
                    != (#[trigger] self.entries@[b]).hash by {
                if a > 0 {
                    assert(hashes_of(before)[a - 1] == before[a - 1].hash);
                }
                if b > 0 {
                    assert(hashes_of(before)[b - 1] == before[b - 1].hash);
                }
            }
            assert forall|a: int| 0 <= a < self.entries@.len() implies (
            #[trigger] self.entries@[a]).wf() by {
                if a > 0 {
                    assert(before[a - 1].wf());
                }
            }
        }
    }

    /// The entries, newest first.
    pub fn entries(&self) -> (entries: &[StoredResult<S>])
        requires
            self.wf(),
        ensures
            entries@ == self@,
            forall|i: int| 0 <= i < entries@.len() ==> (#[trigger] entries@[i]).wf(),
    {
        self.entries.as_slice()
    }

    pub fn len(&self) -> (n: usize)
        ensures
            n == self@.len(),
    {
        self.entries.len()
    }

    pub fn is_empty(&self) -> (empty: bool)
        ensures
            empty == (self@.len() == 0),
    {
        self.entries.len() == 0
    }

    /// Drop the entry at `index`, ignoring an index past the end.
    pub fn remove(&mut self, index: usize)
        requires
            old(self).wf(),
        ensures
            final(self).wf(),
            final(self).capacity() == old(self).capacity(),
            index < old(self)@.len() ==> final(self)@ == old(self)@.remove(index as int),
            index >= old(self)@.len() ==> final(self)@ == old(self)@,
    {
        if index < self.entries.len() {
            let ghost before = self.entries@;
            self.entries.remove(index);
            proof {
                assert forall|a: int, b: int|
                    0 <= a < self.entries@.len() && 0 <= b < self.entries@.len() && a != b
                        implies (#[trigger] self.entries@[a]).hash
                        != (#[trigger] self.entries@[b]).hash by {
                    let oa = if a < index { a } else { a + 1 };
                    let ob = if b < index { b } else { b + 1 };
                    assert(self.entries@[a] == before[oa]);
                    assert(self.entries@[b] == before[ob]);
                }
                assert forall|a: int| 0 <= a < self.entries@.len() implies (
                #[trigger] self.entries@[a]).wf() by {
                    let oa = if a < index { a } else { a + 1 };
                    assert(self.entries@[a] == before[oa]);
                }
            }
        }
    }

    pub fn clear(&mut self)
        requires
            old(self).wf(),
        ensures
            final(self).wf(),
            final(self).capacity() == old(self).capacity(),
            final(self)@.len() == 0,
    {
        self.entries.clear();
    }
}

impl<S> Default for Results<S> {
    fn default() -> (results: Self)
        ensures
            results.wf(),
            results@.len() == 0,
            results.capacity() == CAP,
    {
        Results::new(CAP)
    }
}

/// The list never holds more than its capacity, and never one image twice.
pub proof fn law_results_stay_within_cap_and_distinct<S>(results: Results<S>)
    requires
        results.wf(),
    ensures
        results@.len() <= results.capacity(),
        1 <= results.capacity(),
        distinct_hashes(results@),
{
}

} // verus!
