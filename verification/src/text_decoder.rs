//! The key/value cache of the text decoder, its attention mask and its embedding table.

use crate::tensor::{DType, Device, Tensor};
use crate::text::{push_decimal, replace};
use crate::weights::{get_weight, LoadError, Weights};
use vstd::prelude::*;

verus! {

/// Capacity growth granularity, in positions, of the preallocated key/value buffers.
pub const KV_CACHE_BLOCK: i64 = 256;

/// The next multiple of [`KV_CACHE_BLOCK`].
pub open spec fn round_up(n: int) -> int {
    (n + 255) / 256 * 256
}

/// Preallocated key and value buffers of one layer.
///
/// Both have shape (batch, heads, capacity, head size); only the first `offset` positions are
/// valid.
#[derive(Debug)]
pub struct LayerKv {
    pub k: Tensor,
    pub v: Tensor,
    pub offset: i64,
}

impl LayerKv {
    pub open spec fn wf(&self) -> bool {
        &&& self.k.wf()
        &&& self.v.wf()
        &&& self.k.rank() == 4
        &&& self.k.shape@ == self.v.shape@
        &&& self.offset <= self.k.shape[2]
    }

    /// The number of positions that the buffers have room for.
    pub open spec fn capacity(&self) -> int {
        self.k.shape[2] as int
    }

    /// The valid key positions.
    pub open spec fn keys(&self) -> Seq<Seq<i64>> {
        self.k.along(2).take(self.offset as int)
    }

    /// The valid value positions.
    pub open spec fn values(&self) -> Seq<Seq<i64>> {
        self.v.along(2).take(self.offset as int)
    }
}

/// Key/value cache for autoregressive generation.
///
/// The buffers of a layer grow by whole blocks, and truncation only rewinds the number of valid
/// positions: stale positions are overwritten by later writes.
#[derive(Debug)]
pub struct KvCache {
    layers: Vec<Option<LayerKv>>,
}

impl View for KvCache {
    type V = Seq<Option<LayerKv>>;

    /// What each layer holds.
    closed spec fn view(&self) -> Seq<Option<LayerKv>> {
        self.layers@
    }
}

/// What [`KvCache::update_and_fetch`] is given fits what the layer holds, and the machine has
/// room for the result.
pub open spec fn accepts(entry: Option<LayerKv>, k_new: &Tensor, v_new: &Tensor) -> bool {
    &&& k_new.wf()
    &&& v_new.wf()
    &&& k_new.rank() == 4
    &&& k_new.shape@ == v_new.shape@
    &&& match entry {
        None => has_room(k_new.shape@, k_new.shape[2] as int),
        Some(e) => {
            &&& e.offset >= 0
            &&& e.k.fits(k_new, 2)
            &&& e.v.fits(v_new, 2)
            &&& has_room(k_new.shape@, e.offset + k_new.shape[2])
        },
    }
}

/// Whether buffers of this shape, with room for `n` positions, can be addressed.
pub open spec fn has_room(shape: Seq<usize>, n: int) -> bool {
    &&& n + 255 <= i64::MAX
    &&& round_up(n) <= usize::MAX
    &&& crate::tensor::numel(shape.update(2, round_up(n) as usize)) <= usize::MAX
}

/// The capacity of a layer after `s` more positions were written to it.
pub open spec fn capacity_after(entry: Option<LayerKv>, s: int) -> int {
    match entry {
        None => round_up(s),
        Some(e) => if e.offset + s > e.capacity() {
            round_up(e.offset + s)
        } else {
            e.capacity()
        },
    }
}

/// A layer rewound to at most `n` valid positions, its buffers as they are.
pub open spec fn truncated(entry: Option<LayerKv>, n: i64) -> Option<LayerKv> {
    match entry {
        None => None,
        Some(e) => Some(
            LayerKv {
                k: e.k,
                v: e.v,
                offset: if e.offset < n {
                    e.offset
                } else {
                    n
                },
            },
        ),
    }
}

/// The valid keys of a layer; a layer without buffers has none.
pub open spec fn keys_of(entry: Option<LayerKv>) -> Seq<Seq<i64>> {
    match entry {
        None => Seq::empty(),
        Some(e) => e.keys(),
    }
}

/// The valid values of a layer.
pub open spec fn values_of(entry: Option<LayerKv>) -> Seq<Seq<i64>> {
    match entry {
        None => Seq::empty(),
        Some(e) => e.values(),
    }
}

/// Whether a layer holds what it held before and then the new positions.
pub open spec fn is_appended(
    before: Option<LayerKv>,
    after: Option<LayerKv>,
    k_new: &Tensor,
    v_new: &Tensor,
) -> bool {
    &&& after matches Some(e)
    &&& e.wf()
    &&& e.offset == k_new.shape[2] + match before {
        None => 0,
        Some(b) => b.offset as int,
    }
    &&& e.keys() == keys_of(before) + k_new.along(2)
    &&& e.values() == values_of(before) + v_new.along(2)
    &&& e.capacity() == capacity_after(before, k_new.shape[2] as int)
    &&& e.k.shape@ == k_new.shape@.update(2, e.capacity() as usize)
    &&& e.k.kind == k_new.kind
    &&& e.v.kind == v_new.kind
    &&& match before {
        None => e.k.device == k_new.device && e.v.device == v_new.device,
        Some(b) => e.k.device == b.k.device && e.v.device == b.v.device,
    }
}

/// Whether two tensors are the keys and values of exactly the valid positions of a layer.
pub open spec fn are_views(e: LayerKv, k: &Tensor, v: &Tensor) -> bool {
    &&& k.wf() && v.wf()
    &&& k.shape@ == e.k.shape@.update(2, e.offset as usize)
    &&& v.shape@ == e.v.shape@.update(2, e.offset as usize)
    &&& k.along(2) == e.keys()
    &&& v.along(2) == e.values()
    &&& k.kind == e.k.kind && v.kind == e.v.kind
    &&& k.device == e.k.device && v.device == e.v.device
}

/// The buffers of the first `n` layers, keys before values.
pub open spec fn buffers(layers: Seq<Option<LayerKv>>, n: int) -> Seq<Tensor>
    decreases n,
{
    if n <= 0 {
        Seq::empty()
    } else {
        match layers[n - 1] {
            None => buffers(layers, n - 1),
            Some(e) => buffers(layers, n - 1).push(e.k).push(e.v),
        }
    }
}

fn round_up_positions(n: i64) -> (res: i64)
    requires
        0 <= n,
        n + 255 <= i64::MAX,
    ensures
        res == round_up(n as int),
        n <= res,
{
    (n + (KV_CACHE_BLOCK - 1)) / KV_CACHE_BLOCK * KV_CACHE_BLOCK
}

impl KvCache {
    pub open spec fn wf(&self) -> bool {
        forall|i: int|
            0 <= i < self@.len() ==> (#[trigger] self@[i] matches Some(e) ==> e.wf())
    }

    /// The valid key positions of a layer.
    pub open spec fn keys(&self, layer: int) -> Seq<Seq<i64>> {
        match self@[layer] {
            None => Seq::empty(),
            Some(e) => e.keys(),
        }
    }

    /// The valid value positions of a layer.
    pub open spec fn values(&self, layer: int) -> Seq<Seq<i64>> {
        match self@[layer] {
            None => Seq::empty(),
            Some(e) => e.values(),
        }
    }

    /// The number of positions that a layer counts as valid.
    pub open spec fn len(&self, layer: int) -> int {
        match self@[layer] {
            None => 0,
            Some(e) => e.offset as int,
        }
    }

    /// An empty cache.
    pub fn new(num_layers: usize) -> (res: KvCache)
        ensures
            res.wf(),
            res@.len() == num_layers,
            forall|i: int| 0 <= i < num_layers ==> #[trigger] res@[i] is None,
    {
        let mut layers: Vec<Option<LayerKv>> = Vec::with_capacity(num_layers);
        let mut i: usize = 0;
        while i < num_layers
            invariant
                i <= num_layers,
                layers.len() == i,
                forall|x: int| 0 <= x < i ==> #[trigger] layers[x] is None,
            decreases num_layers - i,
        {
            layers.push(None);
            i = i + 1;
        }
        KvCache { layers }
    }

    /// The valid positions of a layer.
    pub fn get(&self, layer: usize) -> (res: Option<(Tensor, Tensor)>)
        requires
            self.wf(),
            layer < self@.len(),
            self.len(layer as int) >= 0,
        ensures
            match res {
                None => self@[layer as int] is None,
                Some((k, v)) => self@[layer as int] matches Some(e) && are_views(e, &k, &v),
            },
    {
        match &self.layers[layer] {
            None => None,
            Some(e) => {
                let k = e.k.narrow(2, 0, e.offset as usize);
                let v = e.v.narrow(2, 0, e.offset as usize);
                assert(e.k.along(2).subrange(0, e.offset as int) =~= e.keys());
                assert(e.v.along(2).subrange(0, e.offset as int) =~= e.values());
                Some((k, v))
            },
        }
    }

    /// The buffers of a layer.
    pub fn layer(&self, layer: usize) -> (res: Option<&LayerKv>)
        requires
            layer < self@.len(),
        ensures
            match res {
                Some(e) => self@[layer as int] == Some(*e),
                None => self@[layer as int] is None,
            },
    {
        self.layers[layer].as_ref()
    }

    pub fn num_layers(&self) -> (res: usize)
        ensures
            res == self@.len(),
    {
        self.layers.len()
    }

    /// The number of valid positions of the first layer.
    pub fn seq_len(&self) -> (res: i64)
        requires
            self@.len() > 0,
        ensures
            res == self.len(0),
    {
        match &self.layers[0] {
            None => 0,
            Some(e) => e.offset,
        }
    }

    /// Appends `k_new` and `v_new` (batch, heads, positions, head size) at the current offset of
    /// a layer and returns all of its valid positions.
    pub fn update_and_fetch(&mut self, layer: usize, k_new: Tensor, v_new: Tensor) -> (res: (
        Tensor,
        Tensor,
    ))
        requires
            old(self).wf(),
            layer < old(self)@.len(),
            accepts(old(self)@[layer as int], &k_new, &v_new),
        ensures
            final(self).wf(),
            final(self)@.len() == old(self)@.len(),
            forall|i: int|
                0 <= i < old(self)@.len() && i != layer ==> #[trigger] final(self)@[i]
                    == old(self)@[i],
            is_appended(old(self)@[layer as int], final(self)@[layer as int], &k_new, &v_new),
            are_views(final(self)@[layer as int]->0, &res.0, &res.1),
            final(self).len(layer as int) == old(self).len(layer as int) + k_new.shape[2],
            final(self).keys(layer as int) == old(self).keys(layer as int) + k_new.along(2),
            final(self).values(layer as int) == old(self).values(layer as int) + v_new.along(2),
    {
        let s: usize = k_new.shape[2];
        let ghost old_keys = self.keys(layer as int);
        let ghost old_values = self.values(layer as int);
        let taken = self.layers[layer].take();
        let entry: LayerKv = match taken {
            None => {
                let cap: i64 = round_up_positions(s as i64);
                let k = Self::grown(None, &k_new, 0, cap as usize);
                let v = Self::grown(None, &v_new, 0, cap as usize);
                LayerKv { k, v, offset: s as i64 }
            },
            Some(e) => {
                let at: usize = e.offset as usize;
                let offset: i64 = e.offset + s as i64;
                let cap: usize = e.k.shape[2];
                let new_cap: usize = if offset as usize > cap {
                    round_up_positions(offset) as usize
                } else {
                    cap
                };
                proof {
                    crate::tensor::lemma_fits(&e.k, &k_new, 2);
                    crate::tensor::lemma_fits(&e.v, &v_new, 2);
                }
                let k = Self::grown(Some(e.k), &k_new, at, new_cap);
                let v = Self::grown(Some(e.v), &v_new, at, new_cap);
                LayerKv { k, v, offset }
            },
        };
        let n: usize = entry.offset as usize;
        let k_out = entry.k.narrow(2, 0, n);
        let v_out = entry.v.narrow(2, 0, n);
        proof {
            assert(entry.keys() =~= old_keys + k_new.along(2));
            assert(entry.values() =~= old_values + v_new.along(2));
            assert(entry.k.along(2).subrange(0, n as int) =~= entry.keys());
            assert(entry.v.along(2).subrange(0, n as int) =~= entry.values());
            assert(k_out.shape@ =~= k_new.shape@.update(2, n));
            assert(v_out.shape@ =~= v_new.shape@.update(2, n));
        }
        self.layers[layer] = Some(entry);
        (k_out, v_out)
    }

    /// A buffer with room for `cap` positions that holds what `old` holds before `at`, and
    /// `new` from there on.
    fn grown(old_buffer: Option<Tensor>, new: &Tensor, at: usize, cap: usize) -> (res: Tensor)
        requires
            new.wf(),
            new.rank() == 4,
            at + new.shape[2] <= cap,
            crate::tensor::numel(new.shape@.update(2, cap)) <= usize::MAX || (old_buffer matches Some(
                b,
            ) && b.shape[2] == cap),
            match old_buffer {
                None => at == 0,
                Some(b) => b.wf() && b.fits(new, 2) && at <= b.shape[2] <= cap,
            },
        ensures
            res.wf(),
            res.shape@ == new.shape@.update(2, cap),
            res.kind == new.kind,
            res.device == match old_buffer {
                None => new.device,
                Some(b) => b.device,
            },
            res.along(2).len() == cap,
            res.along(2).take(at + new.shape[2]) == (match old_buffer {
                None => Seq::empty(),
                Some(b) => b.along(2).take(at as int),
            }) + new.along(2),
    {
        let s: usize = new.shape[2];
        let base: Tensor = match old_buffer {
            None => {
                let shape: Vec<usize> = vec![new.shape[0], new.shape[1], cap, new.shape[3]];
                assert(shape@ =~= new.shape@.update(2, cap));
                Tensor::zeros(&shape, new.kind, new.device)
            },
            Some(b) => {
                proof {
                    crate::tensor::lemma_fits(&b, new, 2);
                }
                let have: usize = b.shape[2];
                if have < cap {
                    let missing: usize = cap - have;
                    let shape: Vec<usize> = vec![b.shape[0], b.shape[1], missing, b.shape[3]];
                    proof {
                        assert(shape@ =~= b.shape@.update(2, (cap - have) as usize));
                        crate::tensor::lemma_numel_update(new.shape@, 2, cap);
                        crate::tensor::lemma_numel_update(b.shape@, 2, (cap - have) as usize);
                        crate::tensor::lemma_numel_split(b.shape@, 2);
                        let o = crate::tensor::outer(b.shape@, 2) as int;
                        let w = crate::tensor::inner(b.shape@, 2) as int;
                        assert(o * cap * w == o * (cap - have) * w + o * have * w) by (nonlinear_arith);
                        assert(o * have * w >= 0) by (nonlinear_arith)
                            requires
                                o >= 0,
                                have >= 0,
                                w >= 0,
                        ;
                    }
                    let pad = Tensor::zeros(&shape, b.kind, b.device);
                    assert(b.shape@.update(2, 0) =~= pad.shape@.update(2, 0));
                    let joined = b.join(&pad, 2);
                    assert(joined.shape@ =~= new.shape@.update(2, cap));
                    assert(joined.along(2).take(at as int) =~= b.along(2).take(at as int));
                    joined
                } else {
                    assert(b.shape@ =~= new.shape@.update(2, cap));
                    b
                }
            },
        };
        assert(base.shape@.update(2, 0) =~= new.shape@.update(2, 0));
        let res = base.slice_scatter(new, 2, at, at + s);
        proof {
            assert(res.along(2).take(at + s) =~= base.along(2).take(at as int) + new.along(2));
            assert(base.along(2).take(0) =~= Seq::<Seq<i64>>::empty());
        }
        res
    }

    /// Truncates the cache to `new_seq_len` positions.
    pub fn truncate(&mut self, new_seq_len: i64)
        requires
            old(self).wf(),
        ensures
            final(self).wf(),
            final(self)@.len() == old(self)@.len(),
            forall|i: int|
                0 <= i < old(self)@.len() ==> #[trigger] final(self)@[i] == truncated(
                    old(self)@[i],
                    new_seq_len,
                ),
    {
        let ghost before = self.layers@;
        let mut i: usize = 0;
        while i < self.layers.len()
            invariant
                i <= self.layers.len(),
                self.layers.len() == before.len(),
                forall|x: int|
                    0 <= x < before.len() ==> (#[trigger] before[x] matches Some(e) ==> e.wf()),
                forall|x: int| i <= x < before.len() ==> #[trigger] self.layers[x] == before[x],
                forall|x: int|
                    0 <= x < i ==> #[trigger] self.layers[x] == truncated(before[x], new_seq_len),
            decreases self.layers.len() - i,
        {
            let entry = self.layers[i].take();
            match entry {
                None => {},
                Some(e) => {
                    let offset: i64 = if e.offset < new_seq_len {
                        e.offset
                    } else {
                        new_seq_len
                    };
                    self.layers[i] = Some(LayerKv { k: e.k, v: e.v, offset });
                },
            }
            i = i + 1;
        }
    }

    /// The buffers that a lazily computing runtime has to materialize, keys before values.
    pub fn eval(&self) -> (res: Vec<&Tensor>)
        ensures
            res@.map_values(|t: &Tensor| *t) == buffers(self@, self@.len() as int),
    {
        let mut res: Vec<&Tensor> = Vec::new();
        let mut i: usize = 0;
        assert(res@.map_values(|t: &Tensor| *t) =~= buffers(self.layers@, 0));
        while i < self.layers.len()
            invariant
                i <= self.layers.len(),
                res@.map_values(|t: &Tensor| *t) == buffers(self.layers@, i as int),
            decreases self.layers.len() - i,
        {
            let ghost before = res@;
            match &self.layers[i] {
                None => {},
                Some(e) => {
                    res.push(&e.k);
                    res.push(&e.v);
                    assert(res@.map_values(|t: &Tensor| *t) =~= before.map_values(
                        |t: &Tensor| *t,
                    ).push(e.k).push(e.v));
                },
            }
            i = i + 1;
        }
        res
    }
}

/// Truncation keeps the first positions of a layer and forgets the others.
pub proof fn law_truncate_keeps_prefix(e: LayerKv, n: i64)
    requires
        e.wf(),
        e.offset >= 0,
        n >= 0,
    ensures
        ({
            let t = truncated(Some(e), n)->0;
            let kept = if n < e.offset {
                n as int
            } else {
                e.offset as int
            };
            &&& t.keys() == e.keys().take(kept)
            &&& t.values() == e.values().take(kept)
            &&& t.capacity() == e.capacity()
        }),
{
    let t = truncated(Some(e), n)->0;
    let kept = if n < e.offset {
        n as int
    } else {
        e.offset as int
    };
    assert(t.keys() =~= e.keys().take(kept));
    assert(t.values() =~= e.values().take(kept));
}

/// Appending after a truncation gives the positions that were kept and then the new ones: what lies
/// beyond them is overwritten and never seen again.
pub proof fn law_append_after_truncate(
    e: LayerKv,
    n: i64,
    after: LayerKv,
    k_new: &Tensor,
    v_new: &Tensor,
    k: &Tensor,
    v: &Tensor,
)
    requires
        e.wf(),
        0 <= n <= e.offset,
        is_appended(truncated(Some(e), n), Some(after), k_new, v_new),
        are_views(after, k, v),
    ensures
        k.along(2) == e.keys().take(n as int) + k_new.along(2),
        v.along(2) == e.values().take(n as int) + v_new.along(2),
{
    law_truncate_keeps_prefix(e, n);
}

/// What a read of a layer gives is determined by the layer: after an append it is what the append
/// returned.
pub proof fn law_views_agree(
    e: LayerKv,
    k1: &Tensor,
    v1: &Tensor,
    k2: &Tensor,
    v2: &Tensor,
)
    requires
        e.wf(),
        are_views(e, k1, v1),
        are_views(e, k2, v2),
    ensures
        k1.same_as(k2),
        v1.same_as(v2),
{
    crate::tensor::law_slices_determine_data(k1.shape@, k1.data@, k2.data@, 2);
    crate::tensor::law_slices_determine_data(v1.shape@, v1.data@, v2.data@, 2);
}

/// What is read of a layer are the keys and values of its valid positions, one by one, and of no
/// others.
pub proof fn law_views_show_the_valid_positions(e: LayerKv, k: &Tensor, v: &Tensor, i: int)
    requires
        e.wf(),
        are_views(e, k, v),
        0 <= i < e.offset,
    ensures
        k.along(2).len() == e.offset,
        v.along(2).len() == e.offset,
        k.along(2)[i] == e.k.along(2)[i],
        v.along(2)[i] == e.v.along(2)[i],
        k.kind == e.k.kind && v.kind == e.v.kind,
        k.device == e.k.device && v.device == e.v.device,
{
}

/// An append leaves what was valid, adds the new positions behind it, and counts both.
pub proof fn law_append_adds_behind(
    before: Option<LayerKv>,
    after: LayerKv,
    k_new: &Tensor,
    v_new: &Tensor,
)
    requires
        is_appended(before, Some(after), k_new, v_new),
    ensures
        before is None ==> after.keys() == k_new.along(2) && after.values() == v_new.along(2)
            && after.offset == k_new.shape[2],
        before matches Some(b) ==> after.keys() == b.keys() + k_new.along(2) && after.values()
            == b.values() + v_new.along(2) && after.offset == b.offset + k_new.shape[2],
        after.offset <= after.capacity(),
{
    let none = Seq::<Seq<i64>>::empty();
    assert(none + k_new.along(2) =~= k_new.along(2));
    assert(none + v_new.along(2) =~= v_new.along(2));
}

/// A capacity that a layer grows to is a whole number of blocks, has room for what is written
/// and wastes less than one block.
pub proof fn law_capacity_in_blocks(entry: Option<LayerKv>, s: int)
    requires
        s >= 0,
        entry matches Some(e) ==> 0 <= e.offset <= e.capacity() && e.capacity() % 256 == 0,
    ensures
        capacity_after(entry, s) % 256 == 0,
        ({
            let need = s + (if entry is Some {
                entry->0.offset as int
            } else {
                0
            });
            &&& need <= capacity_after(entry, s)
            &&& entry is None || capacity_after(entry, s) != entry->0.capacity()
                ==> capacity_after(entry, s) < need + 256
        }),
{
}

/// Truncating twice is truncating to the smaller length, and truncating to no less than there is
/// changes nothing.
pub proof fn law_truncate_twice(e: LayerKv, n: i64, m: i64)
    ensures
        truncated(truncated(Some(e), n), m) == truncated(
            Some(e),
            if n < m {
                n
            } else {
                m
            },
        ),
        e.offset <= n ==> truncated(Some(e), n) == Some(e),
        n <= e.offset ==> truncated(Some(e), n)->0.offset == n,
        truncated(None, n) is None,
{
}

/// The buffers that are materialized are those of every layer that has been written, the keys of a
/// layer and then its values, in the order of the layers.
pub proof fn law_buffers_of_each_layer(layers: Seq<Option<LayerKv>>, n: int, i: int)
    requires
        0 <= i < n <= layers.len(),
        layers[i] is Some,
    ensures
        ({
            let written = |l: Option<LayerKv>| l is Some;
            let k = layers.take(i).filter(written).len() as int;
            let all = buffers(layers, n);
            &&& all.len() == 2 * layers.take(n).filter(written).len()
            &&& 2 * k + 1 < all.len()
            &&& all[2 * k] == layers[i]->0.k
            &&& all[2 * k + 1] == layers[i]->0.v
        }),
    decreases n,
{
    lemma_buffer_count(layers, n);
    lemma_buffer_count(layers, n - 1);
    if i < n - 1 {
        law_buffers_of_each_layer(layers, n - 1, i);
    }
}

proof fn lemma_buffer_count(layers: Seq<Option<LayerKv>>, n: int)
    requires
        0 <= n <= layers.len(),
    ensures
        buffers(layers, n).len() == 2 * layers.take(n).filter(
            |l: Option<LayerKv>| l is Some,
        ).len(),
    decreases n,
{
    reveal(Seq::filter);
    if n > 0 {
        lemma_buffer_count(layers, n - 1);
        assert(layers.take(n).drop_last() =~= layers.take(n - 1));
    }
}

// ---------------------------------------------------------------------------
// Attention mask
// ---------------------------------------------------------------------------

/// The bits of negative infinity.
pub open spec fn negative_infinity(kind: DType) -> i64 {
    match kind {
        DType::Float32 => 0xFF80_0000,
        DType::Float16 => 0xFC00,
        DType::BFloat16 => 0xFF80,
        DType::Int64 => i64::MIN,
    }
}

/// Negative infinity has the sign bit and all bits of the exponent set, and none of the fraction:
/// of 8 and 23 bits, of 5 and 10 bits, and of 8 and 7 bits.
pub proof fn law_bits_of_negative_infinity()
    ensures
        negative_infinity(DType::Float32) == 0x8000_0000 + 0xFF * 0x80_0000,
        negative_infinity(DType::Float16) == 0x8000 + 0x1F * 0x400,
        negative_infinity(DType::BFloat16) == 0x8000 + 0xFF * 0x80,
{
}

/// Creates a causal attention mask of shape (1, 1, `seq_len`, `past_len + seq_len`): a position
/// may attend to all past ones, to itself and to none after it.
pub fn create_causal_mask(seq_len: i64, past_len: i64, dtype: DType, device: Device) -> (res:
    Tensor)
    requires
        seq_len >= 0,
        past_len >= 0,
        dtype != DType::Int64,
        past_len + seq_len < usize::MAX,
        past_len + seq_len <= i64::MAX,
        seq_len * (past_len + seq_len) <= usize::MAX,
    ensures
        res.wf(),
        res.shape@ == seq![1usize, 1usize, seq_len as usize, (past_len + seq_len) as usize],
        forall|r: int, c: int|
            0 <= r < seq_len && 0 <= c < past_len + seq_len ==> #[trigger] res.row_major(r, c)
                == if c > past_len + r {
                negative_infinity(dtype)
            } else {
                0
            },
        res.kind == dtype,
        res.device == device,
{
    let hidden: i64 = match dtype {
        DType::Float32 => 0xFF80_0000,
        DType::Float16 => 0xFC00,
        DType::BFloat16 => 0xFF80,
        DType::Int64 => i64::MIN,
    };
    let rows: usize = seq_len as usize;
    let past: usize = past_len as usize;
    let cols: usize = past + rows;
    let mut data: Vec<i64> = Vec::new();
    let mut r: usize = 0;
    while r < rows
        invariant
            r <= rows,
            cols == past + rows,
            cols < usize::MAX,
            rows * cols <= usize::MAX,
            data.len() == r * cols,
            hidden == negative_infinity(dtype),
            forall|x: int, y: int|
                #![trigger data[x * cols + y]]
                0 <= x < r && 0 <= y < cols ==> data[x * cols + y] == if y > past + x {
                    hidden as int
                } else {
                    0
                },
        decreases rows - r,
    {
        let mut c: usize = 0;
        while c < cols
            invariant
                r < rows,
                c <= cols,
                cols == past + rows,
                cols < usize::MAX,
                data.len() == r * cols + c,
                forall|x: int, y: int|
                    #![trigger data[x * cols + y]]
                    (0 <= x < r && 0 <= y < cols) || (x == r && 0 <= y < c) ==> data[x * cols + y]
                        == if y > past + x {
                        hidden as int
                    } else {
                        0
                    },
            decreases cols - c,
        {
            let ghost before = data@;
            data.push(
                if c > past + r {
                    hidden
                } else {
                    0
                },
            );
            proof {
                assert forall|x: int, y: int|
                    #![trigger data[x * cols + y]]
                    (0 <= x < r && 0 <= y < cols) || (x == r && 0 <= y < c + 1) implies data[x * cols
                    + y] == if y > past + x {
                    hidden as int
                } else {
                    0
                } by {
                    if x < r {
                        assert(0 <= x * cols + y < r * cols) by (nonlinear_arith)
                            requires
                                0 <= x < r,
                                0 <= y < cols,
                        ;
                        assert(data[x * cols + y] == before[x * cols + y]);
                    } else if y < c {
                        assert(0 <= x * cols) by (nonlinear_arith)
                            requires
                                x >= 0,
                                cols >= 0,
                        ;
                        assert(data[x * cols + y] == before[x * cols + y]);
                    }
                }
            }
            c = c + 1;
        }
        proof {
            assert((r + 1) * cols == r * cols + cols) by (nonlinear_arith);
        }
        r = r + 1;
    }
    let shape: Vec<usize> = vec![1, 1, rows, cols];
    proof {
        let sh = shape@;
        assert(sh =~= seq![1usize, 1usize, rows] + seq![cols]);
        crate::tensor::lemma_numel_concat(seq![1usize, 1usize, rows], seq![cols]);
        assert(seq![1usize, 1usize, rows] =~= seq![1usize, 1usize] + seq![rows]);
        crate::tensor::lemma_numel_concat(seq![1usize, 1usize], seq![rows]);
        assert(seq![1usize, 1usize] =~= seq![1usize] + seq![1usize]);
        crate::tensor::lemma_numel_concat(seq![1usize], seq![1usize]);
        crate::tensor::lemma_numel_one(1);
        crate::tensor::lemma_numel_one(rows);
        crate::tensor::lemma_numel_one(cols);
        assert(1 * 1 * (rows as nat) * (cols as nat) == rows * cols) by (nonlinear_arith);
    }
    let res = Tensor { shape, data, kind: dtype, device };
    proof {
        assert forall|r: int, c: int|
            0 <= r < seq_len && 0 <= c < past_len + seq_len implies #[trigger] res.row_major(r, c)
            == if c > past_len + r {
            negative_infinity(dtype)
        } else {
            0
        } by {
            assert(data[r * cols + c] == if c > past + r {
                hidden as int
            } else {
                0
            });
        }
    }
    res
}

// ---------------------------------------------------------------------------
// Decoder
// ---------------------------------------------------------------------------

/// The sizes of a text decoder.
#[derive(Clone, Copy, Debug, PartialEq, Eq, Structural)]
pub struct TextDecoderConfig {
    pub num_hidden_layers: usize,
    pub num_attention_heads: usize,
    pub num_key_value_heads: usize,
    pub head_dim: usize,
    /// Whether the output projection is the embedding table.
    pub tie_word_embeddings: bool,
}

/// Names of the weights of a layer and of the final norm of a decoder, behind their prefixes.
#[derive(Debug)]
pub struct PartNames {
    pub layer: Vec<String>,
    pub norm: Vec<String>,
}

/// Text decoder: its embedding table, its output projection and where its layers are.
#[derive(Debug)]
pub struct TextDecoder {
    pub embed_tokens: Tensor,
    /// Name prefix of the weights of each layer.
    pub layers: Vec<String>,
    /// Name prefix of the weights of the final norm.
    pub norm: String,
    /// Output projection, transposed for multiplication from the right.
    pub lm_head_weight_t: Tensor,
    pub config: TextDecoderConfig,
}

/// What a forward pass has to run next.
#[derive(Clone, Copy, Debug, PartialEq, Eq, Structural)]
pub enum ForwardStage {
    /// The layer of this number.
    Layer(usize),
    /// The final norm.
    Norm,
    /// The multiplication by the output projection.
    Project,
    /// Nothing: what came out of the projection is the result.
    Done,
}

/// Name prefix of the weights of layer `i`.
pub open spec fn layer_prefix(prefix: Seq<char>, i: nat) -> Seq<char> {
    prefix + ".layers."@ + crate::text::decimal(i)
}

/// Name of the embedding table.
pub open spec fn embedding_name(prefix: Seq<char>) -> Seq<char> {
    crate::weights::weight_name(prefix + ".embed_tokens"@, "weight"@)
}

/// Name of the output projection that is not tied to the embedding table.
pub open spec fn head_name(prefix: Seq<char>) -> Seq<char> {
    crate::weights::weight_name(
        crate::text::replaced(prefix, ".model"@, ".lm_head"@),
        "weight"@,
    )
}

/// The name of the weight that is used as output projection.
pub open spec fn projection_name(prefix: Seq<char>, tied: bool) -> Seq<char> {
    if tied {
        embedding_name(prefix)
    } else {
        head_name(prefix)
    }
}

/// The stage after `done`, in a decoder of `n` layers.
pub open spec fn stage_after(n: nat, done: ForwardStage) -> ForwardStage {
    match done {
        ForwardStage::Layer(i) => if i + 1 < n {
            ForwardStage::Layer((i + 1) as usize)
        } else {
            ForwardStage::Norm
        },
        ForwardStage::Norm => ForwardStage::Project,
        ForwardStage::Project => ForwardStage::Done,
        ForwardStage::Done => ForwardStage::Done,
    }
}

/// Whether there are embedding table and output projection for a decoder, as matrices.
pub open spec fn has_matrices(weights: &Weights, prefix: Seq<char>, tied: bool) -> bool {
    &&& weights.has(embedding_name(prefix)) ==> weights.tensor(embedding_name(prefix)).rank() == 2
    &&& weights.has(projection_name(prefix, tied)) ==> weights.tensor(
        projection_name(prefix, tied),
    ).rank() == 2
}

/// The full names of the weights of a part of a decoder.
pub open spec fn part_weights(prefix: Seq<char>, names: Seq<String>) -> Seq<Seq<char>> {
    names.map_values(|n: String| crate::weights::weight_name(prefix, n@))
}

/// The full names of the weights of the first `n` layers.
pub open spec fn layer_weights(prefix: Seq<char>, n: nat, names: Seq<String>) -> Seq<Seq<char>>
    decreases n,
{
    if n == 0 {
        Seq::empty()
    } else {
        layer_weights(prefix, (n - 1) as nat, names) + part_weights(
            layer_prefix(prefix, (n - 1) as nat),
            names,
        )
    }
}

/// The full names of all weights of a decoder, in the order in which they are looked up: the
/// embedding table, the layers, the final norm, and an output projection of its own.
pub open spec fn needed(prefix: Seq<char>, config: &TextDecoderConfig, names: &PartNames) -> Seq<
    Seq<char>,
> {
    seq![embedding_name(prefix)] + layer_weights(
        prefix,
        config.num_hidden_layers as nat,
        names.layer@,
    ) + part_weights(prefix + ".norm"@, names.norm@) + if config.tie_word_embeddings {
        Seq::empty()
    } else {
        seq![head_name(prefix)]
    }
}

/// Whether all weights of a list are there.
pub open spec fn all_there(weights: &Weights, list: Seq<Seq<char>>) -> bool {
    forall|i: int| 0 <= i < list.len() ==> weights.has(#[trigger] list[i])
}

/// Whether item `k` is the first of a list of weights that is missing.
pub open spec fn is_first_missing(weights: &Weights, list: Seq<Seq<char>>, k: int) -> bool {
    &&& 0 <= k < list.len()
    &&& !weights.has(list[k])
    &&& all_there(weights, list.take(k))
}

/// Whether `e` names the first weight of a list that is missing.
pub open spec fn is_missing(weights: &Weights, list: Seq<Seq<char>>, e: LoadError) -> bool {
    match e {
        LoadError::MissingWeight(name) => exists|k: int| #[trigger]
            is_first_missing(weights, list, k) && name@ == list[k],
    }
}

/// What is missing from the middle of a list is missing from the list.
proof fn lemma_missing_within(
    weights: &Weights,
    before: Seq<Seq<char>>,
    list: Seq<Seq<char>>,
    after: Seq<Seq<char>>,
    e: LoadError,
)
    requires
        all_there(weights, before),
        is_missing(weights, list, e),
    ensures
        is_missing(weights, before + list + after, e),
{
    let all = before + list + after;
    let name = e->MissingWeight_0;
    let k = choose|k: int| #[trigger] is_first_missing(weights, list, k) && name@ == list[k];
    let at = before.len() + k;
    assert(all[at] == list[k]);
    assert forall|i: int| 0 <= i < all.take(at).len() implies weights.has(
        #[trigger] all.take(at)[i],
    ) by {
        if i < before.len() {
            assert(all.take(at)[i] == before[i]);
        } else {
            assert(all.take(at)[i] == list.take(k)[i - before.len()]);
        }
    }
    assert(is_first_missing(weights, all, at));
}

/// Looks up the weights of a part of a decoder.
fn look_up(weights: &Weights, prefix: &str, names: &Vec<String>) -> (res: Result<(), LoadError>)
    ensures
        match res {
            Ok(_) => all_there(weights, part_weights(prefix@, names@)),
            Err(e) => is_missing(weights, part_weights(prefix@, names@), e),
        },
{
    let ghost list = part_weights(prefix@, names@);
    let mut i: usize = 0;
    while i < names.len()
        invariant
            i <= names.len(),
            list == part_weights(prefix@, names@),
            all_there(weights, list.take(i as int)),
        decreases names.len() - i,
    {
        let mut key: String = prefix.to_owned();
        key.append(".");
        key.append(names[i].as_str());
        assert(key@ == list[i as int]);
        if weights.get(&key).is_none() {
            assert(is_first_missing(weights, list, i as int));
            return Err(LoadError::MissingWeight(key));
        }
        proof {
            assert forall|x: int| 0 <= x < list.take(i + 1).len() implies weights.has(
                #[trigger] list.take(i + 1)[x],
            ) by {
                if x < i {
                    assert(list.take(i + 1)[x] == list.take(i as int)[x]);
                }
            }
        }
        i = i + 1;
    }
    assert(list.take(names.len() as int) =~= list);
    Ok(())
}

/// The list of the weights of the layers goes on with those of the next layer.
proof fn lemma_layer_weights(prefix: Seq<char>, i: nat, n: nat, names: Seq<String>)
    requires
        i < n,
    ensures
        exists|rest: Seq<Seq<char>>|
            layer_weights(prefix, n, names) == #[trigger] (layer_weights(prefix, i, names)
                + part_weights(layer_prefix(prefix, i), names) + rest),
    decreases n,
{
    let part = part_weights(layer_prefix(prefix, i), names);
    let done = layer_weights(prefix, i, names);
    if i + 1 == n {
        let rest = Seq::<Seq<char>>::empty();
        assert(layer_weights(prefix, n, names) =~= done + part + rest);
    } else {
        lemma_layer_weights(prefix, i, (n - 1) as nat, names);
        let before = layer_weights(prefix, (n - 1) as nat, names);
        let rest = choose|rest: Seq<Seq<char>>| before == #[trigger] (done + part + rest);
        let last = part_weights(layer_prefix(prefix, (n - 1) as nat), names);
        assert(layer_weights(prefix, n, names) =~= done + part + (rest + last));
    }
}

/// Two lists of weights that are there, one after the other.
proof fn lemma_there_both(weights: &Weights, a: Seq<Seq<char>>, b: Seq<Seq<char>>)
    requires
        all_there(weights, a),
        all_there(weights, b),
    ensures
        all_there(weights, a + b),
{
    assert forall|i: int| 0 <= i < (a + b).len() implies weights.has(#[trigger] (a + b)[i]) by {
        if i < a.len() {
            assert((a + b)[i] == a[i]);
        } else {
            assert((a + b)[i] == b[i - a.len()]);
        }
    }
}

impl TextDecoder {
    /// Whether all weights of a decoder are there and this is the decoder that they make.
    pub open spec fn picked_from(
        &self,
        weights: &Weights,
        prefix: Seq<char>,
        config: &TextDecoderConfig,
        names: &PartNames,
    ) -> bool {
        let w = weights.tensor(projection_name(prefix, config.tie_word_embeddings));
        let t = self.lm_head_weight_t;
        &&& all_there(weights, needed(prefix, config, names))
        &&& self.embed_tokens.same_as(&weights.tensor(embedding_name(prefix)))
        &&& forall|i: int|
            0 <= i < config.num_hidden_layers ==> #[trigger] self.layers[i]@ == layer_prefix(
                prefix,
                i as nat,
            )
        &&& self.norm@ == prefix + ".norm"@
        &&& self.config == *config
        &&& t.shape@ == seq![w.shape[1], w.shape[0]]
        &&& t.kind == w.kind
        &&& t.device == w.device
        &&& forall|r: int, c: int|
            0 <= r < w.shape[1] && 0 <= c < w.shape[0] ==> #[trigger] t.row_major(r, c)
                == w.row_major(c, r)
    }

    pub open spec fn wf(&self) -> bool {
        &&& self.embed_tokens.wf()
        &&& self.embed_tokens.rank() == 2
        &&& self.lm_head_weight_t.wf()
        &&& self.lm_head_weight_t.rank() == 2
        &&& self.layers.len() == self.config.num_hidden_layers
    }

    /// The number of values of an embedding.
    pub open spec fn width(&self) -> usize {
        self.embed_tokens.shape[1]
    }

    /// Whether an identifier names a row of the embedding table.
    pub open spec fn knows(&self, id: i64) -> bool {
        0 <= id < self.embed_tokens.shape[0]
    }

    /// Picks the weights of the decoder.
    ///
    /// Those of the layers and of the final norm are looked up, and stay where they are for the
    /// runtime that computes with them; `names` are their names in a layer and in the norm.
    pub fn load(
        weights: &Weights,
        prefix: &str,
        config: &TextDecoderConfig,
        names: &PartNames,
    ) -> (res: Result<TextDecoder, LoadError>)
        requires
            weights.wf(),
            has_matrices(weights, prefix@, config.tie_word_embeddings),
        ensures
            match res {
                Ok(d) => d.wf() && d.picked_from(weights, prefix@, config, names),
                Err(e) => is_missing(weights, needed(prefix@, config, names), e),
            },
    {
        proof {
            reveal_strlit(".model");
        }
        let ghost all = needed(prefix@, config, names);
        let ghost first = seq![embedding_name(prefix@)];
        let ghost of_layers = layer_weights(
            prefix@,
            config.num_hidden_layers as nat,
            names.layer@,
        );
        let ghost of_norm = part_weights(prefix@ + ".norm"@, names.norm@);
        let ghost last: Seq<Seq<char>> = if config.tie_word_embeddings {
            Seq::empty()
        } else {
            seq![head_name(prefix@)]
        };
        let mut table: String = prefix.to_owned();
        table.append(".embed_tokens");
        let embed_tokens: Tensor = match get_weight(weights, table.as_str(), "weight") {
            Ok(t) => t,
            Err(e) => {
                proof {
                    let none = Seq::<Seq<char>>::empty();
                    assert(is_first_missing(weights, first, 0));
                    lemma_missing_within(weights, none, first, of_layers + of_norm + last, e);
                    assert(none + first + (of_layers + of_norm + last) =~= all);
                }
                return Err(e);
            },
        };
        proof {
            lemma_found_wf(weights, embedding_name(prefix@));
            assert(all_there(weights, first));
        }
        let mut layers: Vec<String> = Vec::new();
        let mut i: usize = 0;
        while i < config.num_hidden_layers
            invariant
                i <= config.num_hidden_layers,
                layers.len() == i,
                forall|x: int|
                    0 <= x < i ==> #[trigger] layers[x]@ == layer_prefix(prefix@, x as nat),
                all_there(weights, first),
                all_there(weights, layer_weights(prefix@, i as nat, names.layer@)),
                of_layers == layer_weights(
                    prefix@,
                    config.num_hidden_layers as nat,
                    names.layer@,
                ),
                all == first + of_layers + of_norm + last,
                all == needed(prefix@, config, names),
            decreases config.num_hidden_layers - i,
        {
            let mut name: String = prefix.to_owned();
            name.append(".layers.");
            push_decimal(&mut name, i);
            let ghost done = layer_weights(prefix@, i as nat, names.layer@);
            let ghost part = part_weights(layer_prefix(prefix@, i as nat), names.layer@);
            if let Err(e) = look_up(weights, name.as_str(), &names.layer) {
                proof {
                    lemma_layer_weights(
                        prefix@,
                        i as nat,
                        config.num_hidden_layers as nat,
                        names.layer@,
                    );
                    let rest = choose|rest: Seq<Seq<char>>|
                        of_layers == #[trigger] (done + part + rest);
                    lemma_there_both(weights, first, done);
                    lemma_missing_within(weights, first + done, part, rest + of_norm + last, e);
                    assert(first + done + part + (rest + of_norm + last) =~= all);
                }
                return Err(e);
            }
            proof {
                lemma_there_both(weights, done, part);
            }
            layers.push(name);
            i = i + 1;
        }
        let mut norm: String = prefix.to_owned();
        norm.append(".norm");
        proof {
            lemma_there_both(weights, first, of_layers);
        }
        if let Err(e) = look_up(weights, norm.as_str(), &names.norm) {
            proof {
                lemma_missing_within(weights, first + of_layers, of_norm, last, e);
            }
            return Err(e);
        }
        proof {
            lemma_there_both(weights, first + of_layers, of_norm);
        }
        let head: Tensor = if config.tie_word_embeddings {
            embed_tokens.duplicate()
        } else {
            let key: String = replace(prefix, ".model", ".lm_head");
            proof {
                if weights.has(head_name(prefix@)) {
                    lemma_found_wf(weights, head_name(prefix@));
                }
            }
            match get_weight(weights, key.as_str(), "weight") {
                Ok(t) => t,
                Err(e) => {
                    proof {
                        let none = Seq::<Seq<char>>::empty();
                        assert(is_first_missing(weights, last, 0));
                        lemma_missing_within(
                            weights,
                            first + of_layers + of_norm,
                            last,
                            none,
                            e,
                        );
                        assert(first + of_layers + of_norm + last + none =~= all);
                    }
                    return Err(e);
                },
            }
        };
        proof {
            assert(all_there(weights, last));
            lemma_there_both(weights, first + of_layers + of_norm, last);
        }
        let lm_head_weight_t: Tensor = head.tr();
        proof {
            let w = weights.tensor(projection_name(prefix@, config.tie_word_embeddings));
            assert forall|r: int, c: int|
                0 <= r < w.shape[1] && 0 <= c < w.shape[0] implies #[trigger] lm_head_weight_t.row_major(
                r,
                c,
            ) == w.row_major(c, r) by {
                assert(head.row_major(c, r) == w.row_major(c, r)) by {
                    assert(head.data@[c * head.shape@.last() + r] == w.data@[c * w.shape@.last() + r]);
                }
            }
        }
        Ok(TextDecoder { embed_tokens, layers, norm, lm_head_weight_t, config: *config })
    }

    /// The embeddings of some identifiers.
    pub fn embed(&self, input_ids: &Tensor) -> (res: Tensor)
        requires
            self.wf(),
            input_ids.wf(),
            forall|i: int| 0 <= i < input_ids.data.len() ==> self.knows(#[trigger] input_ids.data[i]),
            input_ids.data.len() * self.width() <= usize::MAX,
        ensures
            res.wf(),
            res.shape@ == input_ids.shape@.push(self.width()),
            forall|i: int|
                0 <= i < input_ids.data.len() ==> #[trigger] res.row(i) == self.embed_tokens.row(
                    input_ids.data[i] as int,
                ),
            res.kind == self.embed_tokens.kind,
            res.device == self.embed_tokens.device,
    {
        Tensor::embedding(&self.embed_tokens, input_ids)
    }

    /// The storage type of the weights, which activations, masks and rotation tables share.
    pub fn dtype(&self) -> (res: DType)
        ensures
            res == self.embed_tokens.kind,
    {
        self.embed_tokens.kind
    }

    /// What a forward pass starts with.
    pub fn forward_start(&self) -> (res: ForwardStage)
        requires
            self.wf(),
        ensures
            res == if self.config.num_hidden_layers > 0 {
                ForwardStage::Layer(0)
            } else {
                ForwardStage::Norm
            },
    {
        if self.layers.len() > 0 {
            ForwardStage::Layer(0)
        } else {
            ForwardStage::Norm
        }
    }

    /// What a forward pass runs after the stage that has just been run.
    pub fn forward(&self, done: ForwardStage) -> (res: ForwardStage)
        requires
            self.wf(),
            done matches ForwardStage::Layer(i) ==> i < self.config.num_hidden_layers,
        ensures
            res == stage_after(self.config.num_hidden_layers as nat, done),
    {
        match done {
            ForwardStage::Layer(i) => if i + 1 < self.layers.len() {
                ForwardStage::Layer(i + 1)
            } else {
                ForwardStage::Norm
            },
            ForwardStage::Norm => ForwardStage::Project,
            ForwardStage::Project => ForwardStage::Done,
            ForwardStage::Done => ForwardStage::Done,
        }
    }

    pub fn config(&self) -> (res: &TextDecoderConfig)
        ensures
            *res == self.config,
    {
        &self.config
    }
}

proof fn lemma_found_wf(weights: &Weights, name: Seq<char>)
    requires
        weights.wf(),
        weights.has(name),
    ensures
        weights.tensor(name).wf(),
{
    crate::weights::lemma_place(weights.entries@, name, 0);
}

/// The names of the weights of a decoder: its table, its layers by their numbers, and its output
/// projection, which is the table where they are tied.
pub proof fn law_names_of_the_weights(prefix: Seq<char>, i: nat)
    ensures
        embedding_name(prefix) == prefix + ".embed_tokens.weight"@,
        projection_name(prefix, true) == prefix + ".embed_tokens.weight"@,
        projection_name(prefix, false) == head_name(prefix),
        ({
            let name = layer_prefix(prefix, i);
            let n = (prefix + ".layers."@).len() as int;
            &&& name.take(n) == prefix + ".layers."@
            &&& crate::text::number_of(name.skip(n)) == i
        }),
{
    reveal_strlit(".embed_tokens");
    reveal_strlit(".");
    reveal_strlit("weight");
    reveal_strlit(".embed_tokens.weight");
    assert(embedding_name(prefix) =~= prefix + ".embed_tokens.weight"@);
    let name = layer_prefix(prefix, i);
    let n = (prefix + ".layers."@).len() as int;
    assert(name.take(n) =~= prefix + ".layers."@);
    assert(name.skip(n) =~= crate::text::decimal(i));
    crate::text::law_decimal_reads_back(i);
}

/// An output projection of its own is found beside the decoder: for a prefix that ends in `.model`,
/// and has it nowhere else, `.lm_head` comes in its place.
pub proof fn law_name_of_the_head(path: Seq<char>)
    requires
        forall|k: int|
            0 <= k < path.len() ==> #[trigger] (path + ".model"@ + Seq::<char>::empty()).subrange(
                k,
                k + ".model"@.len(),
            ) != ".model"@,
    ensures
        head_name(path + ".model"@) == path + ".lm_head.weight"@,
{
    reveal_strlit(".model");
    reveal_strlit(".lm_head");
    reveal_strlit(".");
    reveal_strlit("weight");
    reveal_strlit(".lm_head.weight");
    let none = Seq::<char>::empty();
    crate::text::law_replaced_place_by_place(path, ".model"@, none, ".lm_head"@, none);
    assert(path + ".model"@ + none =~= path + ".model"@);
    assert(path + ".lm_head"@ + none =~= path + ".lm_head"@);
    assert(head_name(path + ".model"@) =~= path + ".lm_head.weight"@);
}

/// A decoder has the table that it is given, as it is, and the output projection with rows and
/// columns exchanged; with tied embeddings that is the table too. Its layers are numbered from zero.
pub proof fn law_decoder_is_made_of_its_weights(
    d: &TextDecoder,
    weights: &Weights,
    prefix: Seq<char>,
    config: &TextDecoderConfig,
    names: &PartNames,
    r: int,
    c: int,
)
    requires
        d.wf(),
        d.picked_from(weights, prefix, config, names),
    ensures
        ({
            let table = weights.tensor(prefix + ".embed_tokens.weight"@);
            let head = if config.tie_word_embeddings {
                table
            } else {
                weights.tensor(head_name(prefix))
            };
            let t = d.lm_head_weight_t;
            &&& d.embed_tokens.shape@ == table.shape@
            &&& d.embed_tokens.data@ == table.data@
            &&& d.embed_tokens.kind == table.kind
            &&& d.embed_tokens.device == table.device
            &&& 0 <= r < needed(prefix, config, names).len() ==> weights.has(
                needed(prefix, config, names)[r],
            )
            &&& d.config == *config
            &&& d.layers.len() == config.num_hidden_layers
            &&& 0 <= r < d.layers.len() ==> d.layers[r]@ == layer_prefix(prefix, r as nat)
            &&& d.norm@ == prefix + ".norm"@
            &&& t.shape@ == seq![head.shape[1], head.shape[0]]
            &&& t.kind == head.kind
            &&& 0 <= r < head.shape[1] && 0 <= c < head.shape[0] && head.rank() == 2
                ==> t.data[r * head.shape[0] + c] == head.data[c * head.shape[1] + r]
        }),
{
    law_names_of_the_weights(prefix, 0);
    let head = weights.tensor(projection_name(prefix, config.tie_word_embeddings));
    let t = d.lm_head_weight_t;
    if 0 <= r < head.shape[1] && 0 <= c < head.shape[0] && head.rank() == 2 {
        assert(t.row_major(r, c) == head.row_major(c, r));
        assert(t.shape@.last() == head.shape[0]);
        assert(head.shape@.last() == head.shape[1]);
    }
}

/// The weight that is named as missing is one of the list, is missing, and all before it are there.
pub proof fn law_first_missing_weight_is_named(
    weights: &Weights,
    list: Seq<Seq<char>>,
    name: String,
)
    requires
        is_missing(weights, list, LoadError::MissingWeight(name)),
    ensures
        !weights.has(name@),
        exists|k: int|
            0 <= k < list.len() && #[trigger] list[k] == name@ && forall|i: int|
                0 <= i < k ==> weights.has(#[trigger] list[i]),
{
    let k = choose|k: int| #[trigger] is_first_missing(weights, list, k) && name@ == list[k];
    assert forall|i: int| 0 <= i < k implies weights.has(#[trigger] list[i]) by {
        assert(list.take(k)[i] == list[i]);
    }
    assert(list[k] == name@);
}

/// The weights that a decoder needs: the table first, then for each layer in turn all of its
/// weights, then those of the norm, and last an output projection that is not tied.
pub proof fn law_needed_weights(
    prefix: Seq<char>,
    config: &TextDecoderConfig,
    names: &PartNames,
    i: int,
    j: int,
)
    requires
        0 <= i < config.num_hidden_layers,
        0 <= j < names.layer.len(),
    ensures
        ({
            let list = needed(prefix, config, names);
            let per_layer = names.layer.len() as int;
            let n = config.num_hidden_layers * per_layer;
            &&& list.len() == 1 + n + names.norm.len() + if config.tie_word_embeddings {
                0int
            } else {
                1
            }
            &&& list[0] == prefix + ".embed_tokens.weight"@
            &&& 0 <= i * per_layer + j < n
            &&& list[1 + i * per_layer + j] == layer_prefix(prefix, i as nat) + "."@
                + names.layer[j]@
            &&& forall|k: int|
                0 <= k < names.norm.len() ==> #[trigger] list[1 + n + k] == prefix + ".norm"@ + "."@
                    + names.norm[k]@
            &&& !config.tie_word_embeddings ==> list.last() == head_name(prefix)
        }),
{
    let list = needed(prefix, config, names);
    let per_layer = names.layer.len() as int;
    let count = config.num_hidden_layers as nat;
    let n = count * per_layer;
    law_names_of_the_weights(prefix, 0);
    lemma_layer_weights_at(prefix, count, names.layer@, i, j);
    let part = part_weights(prefix + ".norm"@, names.norm@);
    assert forall|k: int| 0 <= k < names.norm.len() implies #[trigger] list[1 + n + k] == prefix
        + ".norm"@ + "."@ + names.norm[k]@ by {
        assert(list[1 + n + k] == part[k]);
    }
}

proof fn lemma_layer_weights_at(prefix: Seq<char>, n: nat, names: Seq<String>, i: int, j: int)
    requires
        0 <= i < n,
        0 <= j < names.len(),
    ensures
        layer_weights(prefix, n, names).len() == n * names.len(),
        0 <= i * names.len() + j < n * names.len(),
        layer_weights(prefix, n, names)[i * names.len() + j] == layer_prefix(prefix, i as nat)
            + "."@ + names[j]@,
    decreases n,
{
    let w = names.len() as int;
    let before = layer_weights(prefix, (n - 1) as nat, names);
    assert(n * w == (n - 1) * w + w) by (nonlinear_arith);
    if n == 1 {
        assert(before.len() == 0);
        assert(0 * w == 0);
    } else {
        lemma_layer_weights_at(
            prefix,
            (n - 1) as nat,
            names,
            if i < n - 1 {
                i
            } else {
                0
            },
            j,
        );
    }
    if i == n - 1 {
        assert(part_weights(layer_prefix(prefix, i as nat), names)[j] == layer_prefix(
            prefix,
            i as nat,
        ) + "."@ + names[j]@);
        assert(0 <= (n - 1) * w) by (nonlinear_arith)
            requires
                n >= 1,
                w >= 0,
        ;
    }
}

/// The stage of a forward pass after `steps` stages.
pub open spec fn stage_at(n: nat, steps: nat) -> ForwardStage
    decreases steps,
{
    if steps == 0 {
        if n > 0 {
            ForwardStage::Layer(0)
        } else {
            ForwardStage::Norm
        }
    } else {
        stage_after(n, stage_at(n, (steps - 1) as nat))
    }
}

/// A forward pass runs each layer once, in order, and then the norm and the projection.
pub proof fn law_forward_runs_each_layer_once(n: nat, steps: nat)
    requires
        n <= usize::MAX,
    ensures
        stage_at(n, steps) == if steps < n {
            ForwardStage::Layer(steps as usize)
        } else if steps == n {
            ForwardStage::Norm
        } else if steps == n + 1 {
            ForwardStage::Project
        } else {
            ForwardStage::Done
        },
    decreases steps,
{
    if steps > 0 {
        law_forward_runs_each_layer_once(n, (steps - 1) as nat);
    }
}

} // verus!
