//! The result cache: a bounded least-recently-used map from (algorithm,
//! parameters) keys to quantized images. A hit returns the stored image
//! without recomputation and refreshes the key's recency; a miss invokes the
//! quantizer, stores the result, and evicts the least recently used entry
//! when the capacity is full. Keys never encode image identity, so the
//! caller must clear the cache when the source image changes.

use vstd::prelude::*;
use lru::LruCache;
use crate::algorithms::{
    Algorithm, AlgorithmCacheKey, AlgorithmParameters, AlgorithmType, DitheringParameters,
    QuantizeError, spec_family_of,
};
use crate::average::{avg_image_pixels, AverageDitheringColorQuantizer};
use crate::error_diffusion::{error_diffusion_image, ErrorDiffusionDitheringColorQuantizer};
use crate::image::{Image, Rgba};
use crate::ordered::{
    ordered_rel_image, random_pixel_ok, OrderedDitheringRandomColorQuantizer,
    OrderedDitheringRelativeColorQuantizer,
};
use crate::popularity::{is_palette, popularity_map, PopularityAlgorithmColorQuantizer};

verus! {

#[verifier::external_type_specification]
#[verifier::external_body]
#[verifier::reject_recursive_types(K)]
#[verifier::reject_recursive_types(V)]
#[verifier::reject_recursive_types(S)]
pub struct ExLruCache<K, V, S>(LruCache<K, V, S>);

/// What the cache stores: the slot index held for each present key code.
pub uninterp spec fn lru_entries(c: LruCache<(u64, u64), usize>) -> Map<(u64, u64), usize>;

/// The recency order of the present key codes: least recently used first,
/// most recently used last.
pub uninterp spec fn lru_order(c: LruCache<(u64, u64), usize>) -> Seq<(u64, u64)>;

/// The bound the cache was created with.
pub uninterp spec fn lru_capacity(c: LruCache<(u64, u64), usize>) -> nat;

/// The slot map of a cache that holds nothing.
pub open spec fn no_slots() -> Map<(u64, u64), usize> {
    Map::empty()
}

/// The recency order of a cache that holds nothing.
pub open spec fn no_order() -> Seq<(u64, u64)> {
    Seq::empty()
}

/// The entries of a cache that holds nothing.
pub open spec fn no_entries() -> Map<(u64, u64), (nat, nat, Seq<Rgba>)> {
    Map::empty()
}

/// The recency order with one key taken out, front to back.
pub open spec fn order_without(order: Seq<(u64, u64)>, k: (u64, u64)) -> Seq<(u64, u64)>
    decreases order.len(),
{
    if order.len() == 0 {
        Seq::empty()
    } else if order.last() == k {
        order_without(order.drop_last(), k)
    } else {
        order_without(order.drop_last(), k).push(order.last())
    }
}

/// The recency order after a key is touched: taken out of its place and
/// appended as most recently used.
pub open spec fn promote(order: Seq<(u64, u64)>, k: (u64, u64)) -> Seq<(u64, u64)> {
    order_without(order, k).push(k)
}

/// Relies on lru::LruCache::new: an empty cache holding at most `cap` items;
/// the capacity must be nonzero.
#[verifier::external_body]
fn lru_new(cap: usize) -> (c: LruCache<(u64, u64), usize>)
    requires
        cap >= 1,
    ensures
        lru_entries(c) == no_slots(),
        lru_order(c) == no_order(),
        lru_capacity(c) == cap,
{
    LruCache::new(std::num::NonZeroUsize::new(cap).unwrap())
}

/// Relies on lru::LruCache::get: returns the value stored for the key and
/// marks the key most recently used; an absent key leaves the cache as it
/// was.
#[verifier::external_body]
fn lru_get(c: &mut LruCache<(u64, u64), usize>, k: (u64, u64)) -> (r: Option<usize>)
    ensures
        lru_capacity(*final(c)) == lru_capacity(*old(c)),
        lru_entries(*final(c)) == lru_entries(*old(c)),
        match r {
            Some(v) => lru_entries(*old(c)).dom().contains(k)
                && v == lru_entries(*old(c))[k]
                && lru_order(*final(c)) == promote(lru_order(*old(c)), k),
            None => !lru_entries(*old(c)).dom().contains(k)
                && lru_order(*final(c)) == lru_order(*old(c)),
        },
{
    match c.get(&k) {
        Some(v) => Some(*v),
        None => None,
    }
}

/// Relies on lru::LruCache::push: inserts the pair as most recently used. An
/// existing key is updated in place and its old pair returned; a full cache
/// first evicts its least recently used entry and returns that.
#[verifier::external_body]
fn lru_push(c: &mut LruCache<(u64, u64), usize>, k: (u64, u64), v: usize) -> (r: Option<
    ((u64, u64), usize),
>)
    ensures
        lru_capacity(*final(c)) == lru_capacity(*old(c)),
        ({
            let entries = lru_entries(*old(c));
            let order = lru_order(*old(c));
            if entries.dom().contains(k) {
                r == Some((k, entries[k]))
                    && lru_entries(*final(c)) == entries.insert(k, v)
                    && lru_order(*final(c)) == promote(order, k)
            } else if order.len() < lru_capacity(*old(c)) {
                r == Option::<((u64, u64), usize)>::None
                    && lru_entries(*final(c)) == entries.insert(k, v)
                    && lru_order(*final(c)) == order.push(k)
            } else {
                order.len() > 0 ==> {
                    let ek = order[0];
                    r == Some((ek, entries[ek]))
                        && lru_entries(*final(c)) == entries.remove(ek).insert(k, v)
                        && lru_order(*final(c)) == order.drop_first().push(k)
                }
            }
        }),
{
    c.push(k, v)
}

/// Relies on lru::LruCache::pop_lru: removes and returns the least recently
/// used entry of a nonempty cache.
#[verifier::external_body]
fn lru_pop_lru(c: &mut LruCache<(u64, u64), usize>) -> (r: Option<((u64, u64), usize)>)
    ensures
        lru_capacity(*final(c)) == lru_capacity(*old(c)),
        ({
            let entries = lru_entries(*old(c));
            let order = lru_order(*old(c));
            if order.len() == 0 {
                r == Option::<((u64, u64), usize)>::None
                    && lru_entries(*final(c)) == entries
                    && lru_order(*final(c)) == order
            } else {
                let ek = order[0];
                r == Some((ek, entries[ek]))
                    && lru_entries(*final(c)) == entries.remove(ek)
                    && lru_order(*final(c)) == order.drop_first()
            }
        }),
{
    c.pop_lru()
}

/// Relies on lru::LruCache::len: the number of entries present.
#[verifier::external_body]
fn lru_len(c: &LruCache<(u64, u64), usize>) -> (r: usize)
    ensures
        r == lru_order(*c).len(),
{
    c.len()
}

/// Relies on lru::LruCache::cap: the bound the cache was created with.
#[verifier::external_body]
fn lru_cap(c: &LruCache<(u64, u64), usize>) -> (r: usize)
    ensures
        r == lru_capacity(*c),
{
    c.cap().get()
}

/// Relies on lru::LruCache::clear: removes every entry; the capacity stays.
#[verifier::external_body]
fn lru_clear(c: &mut LruCache<(u64, u64), usize>)
    ensures
        lru_capacity(*final(c)) == lru_capacity(*old(c)),
        lru_entries(*final(c)) == no_slots(),
        lru_order(*final(c)) == no_order(),
{
    c.clear()
}

/// A small integer tag for each algorithm.
pub open spec fn spec_algorithm_tag(a: Algorithm) -> u64 {
    match a {
        Algorithm::AverageDithering => 0,
        Algorithm::ErrorDiffusionDithering => 1,
        Algorithm::OrderedDitheringRandom => 2,
        Algorithm::OrderedDitheringRelative => 3,
        Algorithm::PopularityAlgorithm => 4,
    }
}

/// The pair of integers a key is stored under: the algorithm tag and a
/// packing of its parameters.
pub open spec fn spec_key_code(key: AlgorithmCacheKey) -> (u64, u64) {
    (
        spec_algorithm_tag(key.algorithm),
        match key.params {
            AlgorithmParameters::Dithering(d) => ((d.k_r as u64) * 0x10000 + (d.k_g as u64) * 0x100 + (d.k_b as u64)) as u64,
            AlgorithmParameters::Popularity(p) => p.k as u64,
        },
    )
}

/// Well-formed keys are stored under distinct codes.
pub proof fn lemma_key_code_injective(k1: AlgorithmCacheKey, k2: AlgorithmCacheKey)
    requires
        k1.wf(),
        k2.wf(),
        spec_key_code(k1) == spec_key_code(k2),
    ensures
        k1 == k2,
{
}

/// The code a key is stored under, in exec form.
fn key_code(key: &AlgorithmCacheKey) -> (r: (u64, u64))
    ensures
        r == spec_key_code(*key),
{
    let tag: u64 = match key.algorithm {
        Algorithm::AverageDithering => 0,
        Algorithm::ErrorDiffusionDithering => 1,
        Algorithm::OrderedDitheringRandom => 2,
        Algorithm::OrderedDitheringRelative => 3,
        Algorithm::PopularityAlgorithm => 4,
    };
    let params: u64 = match key.params {
        AlgorithmParameters::Dithering(d) => {
            d.k_r as u64 * 0x10000 + d.k_g as u64 * 0x100 + d.k_b as u64
        },
        AlgorithmParameters::Popularity(p) => p.k as u64,
    };
    (tag, params)
}

/// The plain value a stored image stands for: width, height and pixels.
pub open spec fn image_model(img: Image) -> (nat, nat, Seq<Rgba>) {
    (img.width as nat, img.height as nat, img.pixels@)
}

/// What a quantization run must have produced for this key and source image:
/// the dimensions are kept and the pixels are the selected strategy's output.
pub open spec fn quantize_post(key: AlgorithmCacheKey, src: Image, out: Image) -> bool {
    &&& out.wf()
    &&& out.width == src.width
    &&& out.height == src.height
    &&& match key.params {
        AlgorithmParameters::Dithering(p) => match key.algorithm {
            Algorithm::AverageDithering => out.pixels@ == avg_image_pixels(p, src.pixels@),
            Algorithm::ErrorDiffusionDithering => out.pixels@ == error_diffusion_image(
                p,
                src.width as int,
                src.height as int,
                src.pixels@,
            ),
            Algorithm::OrderedDitheringRelative => out.pixels@ == ordered_rel_image(
                p,
                src.width as int,
                src.pixels@,
            ),
            Algorithm::OrderedDitheringRandom => out.pixels@.len() == src.pixels@.len()
                && forall|q: int| 0 <= q < out.pixels@.len()
                    ==> #[trigger] random_pixel_ok(p, src.pixels@[q], out.pixels@[q]),
            Algorithm::PopularityAlgorithm => false,
        },
        AlgorithmParameters::Popularity(p) => match key.algorithm {
            Algorithm::PopularityAlgorithm => exists|pal: Seq<Rgba>|
                is_palette(src.pixels@, p.k as int, pal)
                    && out.pixels@ == popularity_map(pal, src.pixels@),
            _ => false,
        },
    }
}

/// The count of quantizer invocations after one more, saturating.
pub open spec fn bump(count: u64) -> u64 {
    if count < u64::MAX {
        (count + 1) as u64
    } else {
        u64::MAX
    }
}

/// How one `get` call relates the cache before (`pre`) and after (`post`):
/// a present key is a hit, served from the store without computing and made
/// most recently used; the popularity strategy on an empty image fails and
/// changes nothing; any other absent key is a miss, computed once and
/// stored, the least recently used entry leaving when the cache was full.
pub open spec fn get_post(
    pre: ProcessedImagesCache,
    post: ProcessedImagesCache,
    key: AlgorithmCacheKey,
    src: Image,
    r: Result<Image, QuantizeError>,
) -> bool {
    let code = spec_key_code(key);
    if pre.entries().dom().contains(code) {
        match r {
            Ok(img) => img.wf() && image_model(img) == pre.entries()[code]
                && post.entries() == pre.entries()
                && post.order() == promote(pre.order(), code)
                && post.computed() == pre.computed(),
            Err(_) => false,
        }
    } else if key.algorithm == Algorithm::PopularityAlgorithm && src.pixels@.len() == 0 {
        r == Result::<Image, QuantizeError>::Err(QuantizeError::EmptyPalette)
            && post.entries() == pre.entries()
            && post.order() == pre.order()
            && post.computed() == pre.computed()
    } else {
        match r {
            Ok(img) => quantize_post(key, src, img)
                && post.computed() == bump(pre.computed())
                && (if pre.order().len() < pre.capacity() {
                    post.entries() == pre.entries().insert(code, image_model(img))
                        && post.order() == pre.order().push(code)
                } else {
                    post.entries() == pre.entries().remove(pre.order()[0]).insert(
                        code,
                        image_model(img),
                    ) && post.order() == pre.order().drop_first().push(code)
                }),
            Err(_) => false,
        }
    }
}

/// A bounded least-recently-used cache of quantized images, keyed by
/// algorithm and parameters.
pub struct ProcessedImagesCache {
    cache: LruCache<(u64, u64), usize>,
    images: Vec<Image>,
    computed: u64,
}

impl ProcessedImagesCache {
    /// The key codes present, each with the model of its stored image.
    pub closed spec fn entries(&self) -> Map<(u64, u64), (nat, nat, Seq<Rgba>)> {
        Map::new(
            |k: (u64, u64)| lru_entries(self.cache).dom().contains(k),
            |k: (u64, u64)| image_model(self.images@[lru_entries(self.cache)[k] as int]),
        )
    }

    /// The recency order of the present key codes, least recently used
    /// first.
    pub closed spec fn order(&self) -> Seq<(u64, u64)> {
        lru_order(self.cache)
    }

    /// The fixed capacity.
    pub closed spec fn capacity(&self) -> nat {
        lru_capacity(self.cache)
    }

    /// How many times a quantizer has been invoked on behalf of this cache
    /// (saturating).
    pub closed spec fn computed(&self) -> u64 {
        self.computed
    }

    /// The internal consistency of the cache: the recency order lists
    /// exactly the present keys once each within capacity, and every present
    /// key holds a distinct slot of a well-formed stored image.
    pub closed spec fn wf(&self) -> bool {
        &&& lru_capacity(self.cache) >= 1
        &&& lru_order(self.cache).no_duplicates()
        &&& lru_order(self.cache).to_set() == lru_entries(self.cache).dom()
        &&& lru_order(self.cache).len() <= lru_capacity(self.cache)
        &&& forall|k: (u64, u64)| lru_entries(self.cache).dom().contains(k)
            ==> #[trigger] lru_entries(self.cache)[k] < self.images@.len()
        &&& forall|k1: (u64, u64), k2: (u64, u64)|
            lru_entries(self.cache).dom().contains(k1)
                && lru_entries(self.cache).dom().contains(k2) && k1 != k2
                ==> #[trigger] lru_entries(self.cache)[k1] != #[trigger] lru_entries(self.cache)[k2]
        &&& forall|k: (u64, u64)| lru_entries(self.cache).dom().contains(k)
            ==> (#[trigger] self.images@[lru_entries(self.cache)[k] as int]).wf()
    }

    /// A cache that holds at most `size` images and has computed none.
    pub fn new(size: usize) -> (c: ProcessedImagesCache)
        requires
            size >= 1,
        ensures
            c.wf(),
            c.entries() == no_entries(),
            c.order() == no_order(),
            c.capacity() == size,
            c.computed() == 0,
    {
        let c = ProcessedImagesCache { cache: lru_new(size), images: Vec::new(), computed: 0 };
        proof {
            assert(c.entries() =~= no_entries());
            assert(lru_order(c.cache).to_set() =~= lru_entries(c.cache).dom());
        }
        c
    }

    /// Discards every entry; the capacity and the invocation count stay.
    /// Must be called when the source image changes: keys do not encode
    /// image identity.
    pub fn clear(&mut self)
        requires
            old(self).wf(),
        ensures
            final(self).wf(),
            final(self).entries() == no_entries(),
            final(self).order() == no_order(),
            final(self).capacity() == old(self).capacity(),
            final(self).computed() == old(self).computed(),
    {
        lru_clear(&mut self.cache);
        proof {
            assert(self.entries() =~= no_entries());
            assert(lru_order(self.cache).to_set() =~= lru_entries(self.cache).dom());
        }
    }

    /// Runs the quantizer selected by the key. The key's parameter shape
    /// must match its algorithm's family; an empty image fails only the
    /// popularity strategy.
    fn create_new_image(key: &AlgorithmCacheKey, initial_image: &Image) -> (r: Result<
        Image,
        QuantizeError,
    >)
        requires
            key.wf(),
            initial_image.wf(),
        ensures
            match r {
                Ok(img) => quantize_post(*key, *initial_image, img)
                    && (key.algorithm == Algorithm::PopularityAlgorithm
                        ==> initial_image.pixels@.len() >= 1),
                Err(e) => e == QuantizeError::EmptyPalette
                    && key.algorithm == Algorithm::PopularityAlgorithm
                    && initial_image.pixels@.len() == 0,
            },
    {
        match key.algorithm {
            Algorithm::AverageDithering => {
                let p = Self::expect_dithering(key);
                Ok(AverageDitheringColorQuantizer::generate_output_image(p, initial_image))
            },
            Algorithm::ErrorDiffusionDithering => {
                let p = Self::expect_dithering(key);
                Ok(ErrorDiffusionDitheringColorQuantizer::generate_output_image(p, initial_image))
            },
            Algorithm::OrderedDitheringRandom => {
                let p = Self::expect_dithering(key);
                Ok(OrderedDitheringRandomColorQuantizer::generate_output_image(p, initial_image))
            },
            Algorithm::OrderedDitheringRelative => {
                let p = Self::expect_dithering(key);
                Ok(OrderedDitheringRelativeColorQuantizer::generate_output_image(p, initial_image))
            },
            Algorithm::PopularityAlgorithm => {
                match key.params {
                    AlgorithmParameters::Popularity(p) => {
                        PopularityAlgorithmColorQuantizer::generate_output_image(p, initial_image)
                    },
                    AlgorithmParameters::Dithering(_) => {
                        proof {
                            assert(false);
                        }
                        Err(QuantizeError::EmptyPalette)
                    },
                }
            },
        }
    }

    /// The dithering parameters of a key whose algorithm is in the dithering
    /// family.
    fn expect_dithering(key: &AlgorithmCacheKey) -> (p: DitheringParameters)
        requires
            key.wf(),
            spec_family_of(key.algorithm) == AlgorithmType::Dithering,
        ensures
            key.params == AlgorithmParameters::Dithering(p),
            p.valid(),
    {
        match key.params {
            AlgorithmParameters::Dithering(d) => d,
            AlgorithmParameters::Popularity(_) => {
                proof {
                    assert(false);
                }
                DitheringParameters { k_r: 2, k_g: 2, k_b: 2 }
            },
        }
    }

    /// Returns the image for this key. A present key returns the stored
    /// image unchanged, becomes most recently used and computes nothing. An
    /// absent key runs the quantizer once; the result is stored, evicting
    /// the least recently used entry when the cache is full, and returned.
    /// The one failure is the popularity strategy on an image with no
    /// pixels, which caches nothing.
    pub fn get(&mut self, key: AlgorithmCacheKey, initial_image: &Image) -> (r: Result<
        Image,
        QuantizeError,
    >)
        requires
            old(self).wf(),
            key.wf(),
            initial_image.wf(),
        ensures
            final(self).wf(),
            final(self).capacity() == old(self).capacity(),
            get_post(*old(self), *final(self), key, *initial_image, r),
    {
        let ghost raw0 = lru_entries(old(self).cache);
        let ghost order0 = lru_order(old(self).cache);
        let ghost images0 = old(self).images@;
        let code = key_code(&key);
        let got = lru_get(&mut self.cache, code);
        match got {
            Some(idx) => {
                proof {
                    lemma_promote_props(order0, code);
                    assert(order0.contains(code)) by {
                        assert(order0.to_set().contains(code));
                    }
                    assert(order0.to_set().insert(code) =~= order0.to_set());
                    assert(self.entries() =~= old(self).entries());
                }
                let img = self.images[idx].duplicate();
                Ok(img)
            },
            None => {
                let computed_img = match Self::create_new_image(&key, initial_image) {
                    Ok(img) => img,
                    Err(e) => {
                        proof {
                            assert(self.entries() =~= old(self).entries());
                        }
                        return Err(e);
                    },
                };
                self.computed = if self.computed == u64::MAX {
                    u64::MAX
                } else {
                    self.computed + 1
                };
                let stored = computed_img.duplicate();
                let idx: usize;
                if lru_len(&self.cache) == lru_cap(&self.cache) {
                    let popped = lru_pop_lru(&mut self.cache);
                    let eidx: usize = match popped {
                        Some(p) => p.1,
                        None => {
                            proof {
                                assert(false);
                            }
                            0
                        },
                    };
                    let ghost ek = order0[0];
                    proof {
                        lemma_drop_first_props(order0);
                        assert(raw0.dom().contains(ek)) by {
                            assert(order0.to_set().contains(ek));
                        }
                        assert(eidx == raw0[ek]);
                    }
                    self.images.set(eidx, stored);
                    idx = eidx;
                    let ghost order1 = lru_order(self.cache);
                    let _prev = lru_push(&mut self.cache, code, idx);
                    proof {
                        assert(!order1.contains(code)) by {
                            assert(!order0.to_set().contains(code));
                            if order1.contains(code) {
                                assert(order1.to_set().contains(code));
                            }
                        }
                        lemma_push_set(order1, code);
                        let raw2 = lru_entries(self.cache);
                        assert(raw2.dom() =~= raw0.dom().remove(ek).insert(code));
                        assert(lru_order(self.cache).to_set() =~= raw2.dom());
                        assert(self.entries() =~= old(self).entries().remove(ek).insert(
                            code,
                            image_model(computed_img),
                        )) by {
                            assert forall|k: (u64, u64)| raw2.dom().contains(k) && k != code
                                implies raw0[k] != eidx && raw0[k] < images0.len() by {
                                assert(raw0.dom().contains(k));
                                assert(k != ek);
                                assert(raw0[k] != raw0[ek]);
                            }
                        }
                    }
                } else {
                    idx = self.images.len();
                    self.images.push(stored);
                    let ghost order1 = lru_order(self.cache);
                    let _prev = lru_push(&mut self.cache, code, idx);
                    proof {
                        assert(!order1.contains(code)) by {
                            assert(!order0.to_set().contains(code));
                            if order1.contains(code) {
                                assert(order1.to_set().contains(code));
                            }
                        }
                        lemma_push_set(order1, code);
                        let raw2 = lru_entries(self.cache);
                        assert(raw2.dom() =~= raw0.dom().insert(code));
                        assert(lru_order(self.cache).to_set() =~= raw2.dom());
                        assert forall|k: (u64, u64)| raw0.dom().contains(k)
                            implies #[trigger] raw0[k] < images0.len() && raw0[k] != idx by {}
                        assert(self.entries() =~= old(self).entries().insert(
                            code,
                            image_model(computed_img),
                        ));
                    }
                }
                Ok(computed_img)
            },
        }
    }

    /// How many times a quantizer has run on behalf of this cache
    /// (saturating): the observable side channel for cache behaviour.
    pub fn computed_count(&self) -> (r: u64)
        ensures
            r == self.computed(),
    {
        self.computed
    }

    /// How many entries the cache currently holds.
    pub fn len(&self) -> (r: usize)
        ensures
            r == self.order().len(),
    {
        lru_len(&self.cache)
    }

    /// The single entry point for external callers: builds the cache key for
    /// the algorithm and parameters and delegates to `get`.
    pub fn quantized_image(
        &mut self,
        algorithm: Algorithm,
        params: AlgorithmParameters,
        source_image: &Image,
    ) -> (r: Result<Image, QuantizeError>)
        requires
            old(self).wf(),
            (AlgorithmCacheKey { algorithm, params }).wf(),
            source_image.wf(),
        ensures
            final(self).wf(),
            final(self).capacity() == old(self).capacity(),
            get_post(
                *old(self),
                *final(self),
                AlgorithmCacheKey { algorithm, params },
                *source_image,
                r,
            ),
    {
        self.get(AlgorithmCacheKey { algorithm, params }, source_image)
    }

    /// The external invalidation signal: clears the cache exactly when the
    /// source image changed.
    pub fn invalidate(&mut self, source_image_changed: bool)
        requires
            old(self).wf(),
        ensures
            final(self).wf(),
            final(self).capacity() == old(self).capacity(),
            final(self).computed() == old(self).computed(),
            source_image_changed ==> final(self).entries() == no_entries() && final(self).order() == no_order(),
            !source_image_changed ==> final(self).entries() == old(self).entries()
                && final(self).order() == old(self).order(),
    {
        if source_image_changed {
            self.clear();
        }
    }
}

/// After `clear` the cache is empty, so the next `get` of any key — cached
/// before the clear or not — cannot be served as a hit: a successful call
/// runs the quantizer once more and returns a fresh quantization of the
/// source image.
pub proof fn lemma_clear_then_get_recomputes(
    pre: ProcessedImagesCache,
    post: ProcessedImagesCache,
    key: AlgorithmCacheKey,
    src: Image,
    r: Result<Image, QuantizeError>,
)
    requires
        pre.entries() == no_entries(),
        get_post(pre, post, key, src, r),
    ensures
        match r {
            Ok(img) => quantize_post(key, src, img) && post.computed() == bump(pre.computed()),
            Err(e) => e == QuantizeError::EmptyPalette
                && key.algorithm == Algorithm::PopularityAlgorithm && src.pixels@.len() == 0,
        },
{
    assert(!pre.entries().dom().contains(spec_key_code(key)));
}

/// Taking a key out of the order removes exactly that key.
proof fn lemma_order_without_props(order: Seq<(u64, u64)>, k: (u64, u64))
    requires
        order.no_duplicates(),
    ensures
        order_without(order, k).no_duplicates(),
        !order_without(order, k).contains(k),
        order_without(order, k).to_set() == order.to_set().remove(k),
        order.contains(k) ==> order_without(order, k).len() == order.len() - 1,
        !order.contains(k) ==> order_without(order, k) == order,
    decreases order.len(),
{
    let r = order_without(order, k);
    if order.len() == 0 {
        assert(r.to_set() =~= order.to_set().remove(k));
        assert(r =~= order);
    } else {
        let head = order.drop_last();
        assert(head.no_duplicates());
        lemma_order_without_props(head, k);
        let rh = order_without(head, k);
        assert(order.contains(order.last())) by {
            assert(order[order.len() - 1] == order.last());
        }
        assert forall|x: (u64, u64)| head.contains(x) implies order.contains(x) by {
            let i = choose|i: int| 0 <= i < head.len() && head[i] == x;
            assert(order[i] == x);
        }
        assert forall|x: (u64, u64)| order.contains(x) && x != order.last()
            implies head.contains(x) by {
            let i = choose|i: int| 0 <= i < order.len() && order[i] == x;
            assert(head[i] == x);
        }
        if order.last() == k {
            assert(r == rh);
            assert(!head.contains(k)) by {
                if head.contains(k) {
                    let i = choose|i: int| 0 <= i < head.len() && head[i] == k;
                    assert(order[i] == order[order.len() - 1]);
                }
            }
            assert(rh == head);
            assert(r.to_set() =~= order.to_set().remove(k));
        } else {
            assert(r == rh.push(order.last()));
            assert(r.no_duplicates()) by {
                assert(!rh.contains(order.last())) by {
                    if rh.contains(order.last()) {
                        assert(rh.to_set().contains(order.last()));
                        assert(head.contains(order.last()));
                        let i = choose|i: int| 0 <= i < head.len() && head[i] == order.last();
                        assert(order[i] == order[order.len() - 1]);
                    }
                }
                assert forall|i: int, j: int| 0 <= i < r.len() && 0 <= j < r.len() && i != j
                    implies r[i] != r[j] by {
                    if i < r.len() - 1 && j < r.len() - 1 {
                        assert(r[i] == rh[i] && r[j] == rh[j]);
                    } else if i == r.len() - 1 {
                        assert(r[j] == rh[j]);
                        assert(rh.contains(rh[j]));
                    } else {
                        assert(r[i] == rh[i]);
                        assert(rh.contains(rh[i]));
                    }
                }
            }
            assert(!r.contains(k)) by {
                if r.contains(k) {
                    let i = choose|i: int| 0 <= i < r.len() && r[i] == k;
                    if i < r.len() - 1 {
                        assert(rh[i] == k);
                        assert(rh.contains(k));
                    }
                }
            }
            assert(r.to_set() =~= order.to_set().remove(k)) by {
                assert forall|x: (u64, u64)| r.to_set().contains(x)
                    implies order.to_set().remove(k).contains(x) by {
                    assert(r.contains(x));
                    let i = choose|i: int| 0 <= i < r.len() && r[i] == x;
                    if i < r.len() - 1 {
                        assert(rh[i] == x);
                        assert(rh.contains(x));
                        assert(rh.to_set().contains(x));
                        assert(head.to_set().remove(k).contains(x));
                        assert(head.contains(x));
                        assert(order.contains(x));
                        assert(order.to_set().contains(x));
                    } else {
                        assert(x == order.last());
                        assert(order.to_set().contains(x));
                    }
                }
                assert forall|x: (u64, u64)| order.to_set().remove(k).contains(x)
                    implies r.to_set().contains(x) by {
                    assert(order.to_set().contains(x));
                    assert(order.contains(x));
                    assert(x != k);
                    if x == order.last() {
                        assert(r[r.len() - 1] == x);
                        assert(r.contains(x));
                    } else {
                        assert(head.contains(x));
                        assert(head.to_set().contains(x));
                        assert(head.to_set().remove(k).contains(x));
                        assert(rh.to_set().contains(x));
                        assert(rh.contains(x));
                        let i = choose|i: int| 0 <= i < rh.len() && rh[i] == x;
                        assert(r[i] == x);
                        assert(r.contains(x));
                    }
                }
            }
            if order.contains(k) {
                assert(head.contains(k));
            }
            if !order.contains(k) {
                assert(!head.contains(k)) by {
                    assert forall|x: (u64, u64)| head.contains(x) implies order.contains(x) by {
                        let i = choose|i: int| 0 <= i < head.len() && head[i] == x;
                        assert(order[i] == x);
                    }
                }
                assert(rh == head);
                assert(r =~= order);
            }
        }
    }
}

/// Promoting a key keeps the order duplicate-free and its key set becomes
/// the old set with the key present.
proof fn lemma_promote_props(order: Seq<(u64, u64)>, k: (u64, u64))
    requires
        order.no_duplicates(),
    ensures
        promote(order, k).no_duplicates(),
        promote(order, k).to_set() == order.to_set().insert(k),
        order.contains(k) ==> promote(order, k).len() == order.len(),
{
    lemma_order_without_props(order, k);
    let w = order_without(order, k);
    let p = promote(order, k);
    assert(p.no_duplicates()) by {
        assert forall|i: int, j: int| 0 <= i < p.len() && 0 <= j < p.len() && i != j
            implies p[i] != p[j] by {
            if i < p.len() - 1 && j < p.len() - 1 {
                assert(p[i] == w[i] && p[j] == w[j]);
            } else if i == p.len() - 1 {
                assert(p[j] == w[j]);
                assert(w.contains(w[j]));
            } else {
                assert(p[i] == w[i]);
                assert(w.contains(w[i]));
            }
        }
    }
    assert(p.to_set() =~= order.to_set().insert(k)) by {
        assert forall|x: (u64, u64)| p.to_set().contains(x)
            implies order.to_set().insert(k).contains(x) by {
            let i = choose|i: int| 0 <= i < p.len() && p[i] == x;
            if i < p.len() - 1 {
                assert(w.contains(x));
                assert(w.to_set().contains(x));
            }
        }
        assert forall|x: (u64, u64)| order.to_set().insert(k).contains(x)
            implies p.to_set().contains(x) by {
            if x == k {
                assert(p[p.len() - 1] == x);
            } else {
                assert(order.to_set().contains(x));
                assert(w.to_set().contains(x));
                assert(w.contains(x));
                let i = choose|i: int| 0 <= i < w.len() && w[i] == x;
                assert(p[i] == x);
            }
        }
    }
}

/// Dropping the least recently used key keeps the order duplicate-free and
/// removes exactly that key from the key set.
proof fn lemma_drop_first_props(order: Seq<(u64, u64)>)
    requires
        order.no_duplicates(),
        order.len() > 0,
    ensures
        order.drop_first().no_duplicates(),
        order.drop_first().to_set() == order.to_set().remove(order[0]),
        !order.drop_first().contains(order[0]),
{
    let d = order.drop_first();
    assert(d.no_duplicates()) by {
        assert forall|i: int, j: int| 0 <= i < d.len() && 0 <= j < d.len() && i != j
            implies d[i] != d[j] by {
            assert(d[i] == order[i + 1] && d[j] == order[j + 1]);
        }
    }
    assert(!d.contains(order[0])) by {
        if d.contains(order[0]) {
            let i = choose|i: int| 0 <= i < d.len() && d[i] == order[0];
            assert(order[i + 1] == order[0]);
        }
    }
    assert(d.to_set() =~= order.to_set().remove(order[0])) by {
        assert forall|x: (u64, u64)| d.to_set().contains(x)
            implies order.to_set().remove(order[0]).contains(x) by {
            let i = choose|i: int| 0 <= i < d.len() && d[i] == x;
            assert(order[i + 1] == x);
        }
        assert forall|x: (u64, u64)| order.to_set().remove(order[0]).contains(x)
            implies d.to_set().contains(x) by {
            let i = choose|i: int| 0 <= i < order.len() && order[i] == x;
            assert(i != 0);
            assert(d[i - 1] == x);
        }
    }
}

/// Appending a fresh key keeps the order duplicate-free and adds exactly
/// that key to the key set.
proof fn lemma_push_set(order: Seq<(u64, u64)>, k: (u64, u64))
    requires
        order.no_duplicates(),
        !order.contains(k),
    ensures
        order.push(k).no_duplicates(),
        order.push(k).to_set() == order.to_set().insert(k),
{
    let p = order.push(k);
    assert(p.no_duplicates()) by {
        assert forall|i: int, j: int| 0 <= i < p.len() && 0 <= j < p.len() && i != j
            implies p[i] != p[j] by {
            if i < p.len() - 1 && j < p.len() - 1 {
                assert(p[i] == order[i] && p[j] == order[j]);
            } else if i == p.len() - 1 {
                assert(p[j] == order[j]);
                assert(order.contains(order[j]));
            } else {
                assert(p[i] == order[i]);
                assert(order.contains(order[i]));
            }
        }
    }
    assert(p.to_set() =~= order.to_set().insert(k)) by {
        assert forall|x: (u64, u64)| p.to_set().contains(x)
            implies order.to_set().insert(k).contains(x) by {
            let i = choose|i: int| 0 <= i < p.len() && p[i] == x;
            if i < p.len() - 1 {
                assert(order.contains(x));
            }
        }
        assert forall|x: (u64, u64)| order.to_set().insert(k).contains(x)
            implies p.to_set().contains(x) by {
            if x == k {
                assert(p[p.len() - 1] == x);
            } else {
                let i = choose|i: int| 0 <= i < order.len() && order[i] == x;
                assert(p[i] == x);
            }
        }
    }
}

} // verus!
