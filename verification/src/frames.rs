use vstd::prelude::*;

use crate::capture::{frame_capture, raw_pixels_to_monitor_capture, MonitorCapture};
use crate::pixels::PixelFormat;
use std::collections::{HashMap, HashSet};
use vstd::std_specs::hash::spec_keys_iter;
use vstd::std_specs::iter::IteratorSpec;

verus! {

/// One raw frame of a screen-cast stream node. Where its monitor lies on the
/// desktop is what the list of streams gives for the node.
#[derive(Debug, Clone)]
pub struct RawFrame {
    pub node_id: u32,
    pub data: Vec<u8>,
    pub width: u32,
    pub height: u32,
    pub format: PixelFormat,
}

/// The frames received so far, by stream node: the first frame of each node.
/// Later frames of a node that already has one are not kept.
pub struct FrameStore {
    frames: HashMap<u32, RawFrame>,
}

impl FrameStore {
    #[verifier::type_invariant]
    spec fn inv(self) -> bool {
        forall|n: u32| #[trigger] self.frames@.contains_key(n) ==> self.frames@[n].node_id == n
    }

    /// The frames kept, by node.
    pub closed spec fn kept(self) -> Map<u32, RawFrame> {
        self.frames@
    }

    /// Whether a frame of `node` is kept.
    pub open spec fn has_node(self, node: u32) -> bool {
        self.kept().contains_key(node)
    }

    /// An empty store.
    pub fn new() -> (r: FrameStore)
        ensures
            r.kept() == Map::<u32, RawFrame>::empty(),
    {
        FrameStore { frames: HashMap::new() }
    }

    /// The number of nodes that have a frame.
    pub fn len(&self) -> (n: usize)
        ensures
            n == self.kept().len(),
    {
        broadcast use vstd::std_specs::hash::group_hash_axioms;

        self.frames.len()
    }

    /// Whether a frame of `node` is kept.
    pub fn contains(&self, node: u32) -> (b: bool)
        ensures
            b == self.has_node(node),
    {
        broadcast use vstd::std_specs::hash::group_hash_axioms;

        self.frames.contains_key(&node)
    }

    /// Keeps `frame` unless its node already has one, and says whether every one
    /// of the `needed` streams now has a frame, so that capturing can stop.
    pub fn store_first(&mut self, frame: RawFrame, needed: usize) -> (done: bool)
        ensures
            old(self).has_node(frame.node_id) ==> final(self).kept() == old(self).kept(),
            !old(self).has_node(frame.node_id) ==> final(self).kept() == old(self).kept().insert(
                frame.node_id,
                frame,
            ),
            done == (final(self).kept().len() >= needed),
    {
        broadcast use vstd::std_specs::hash::group_hash_axioms;

        proof {
            use_type_invariant(&*self);
        }
        if !self.contains(frame.node_id) {
            let mut frames: HashMap<u32, RawFrame> = HashMap::new();
            std::mem::swap(&mut frames, &mut self.frames);
            frames.insert(frame.node_id, frame);
            self.frames = frames;
        }
        self.len() >= needed
    }
}

/// What the stream callback does with a buffer of `node`, in order: a node that
/// already has a frame only has its buffer dropped; one whose format is not
/// known yet, or whose size is empty, waits; any other has its buffer read.
#[derive(Debug, Clone, Copy, PartialEq, Eq, Structural)]
pub enum ProcessStep {
    Drop,
    Wait,
    Read,
}

pub fn process_step(store: &FrameStore, node: u32, format_known: bool, width: u32, height: u32) -> (r: ProcessStep)
    ensures
        store.has_node(node) ==> r == ProcessStep::Drop,
        !store.has_node(node) && (!format_known || width == 0 || height == 0) ==> r == ProcessStep::Wait,
        !store.has_node(node) && format_known && width != 0 && height != 0 ==> r == ProcessStep::Read,
{
    if store.contains(node) {
        ProcessStep::Drop
    } else if !format_known || width == 0 || height == 0 {
        ProcessStep::Wait
    } else {
        ProcessStep::Read
    }
}

/// The byte range `(start, end)` of a buffer's chunk that holds the frame:
/// `size` bytes from `offset`. `None` when the chunk is empty or runs past the
/// `slice_len` bytes that are mapped.
pub fn chunk_range(offset: u32, size: u32, slice_len: usize) -> (r: Option<(usize, usize)>)
    ensures
        size == 0 || slice_len < offset + size <==> r is None,
        r matches Some(p) ==> p.0 == offset && p.1 == offset + size,
{
    if size == 0 {
        return None;
    }
    let end: u64 = offset as u64 + size as u64;
    if (slice_len as u64) < end {
        return None;
    }
    Some((offset as usize, end as usize))
}

/// Stream nodes, with no node twice.
pub struct NodeSet {
    nodes: HashSet<u32>,
}

impl NodeSet {
    pub closed spec fn contents(self) -> Set<u32> {
        self.nodes@
    }

    pub fn new() -> (r: NodeSet)
        ensures
            r.contents() == Set::<u32>::empty(),
    {
        NodeSet { nodes: HashSet::new() }
    }

    pub fn contains(&self, node: u32) -> (b: bool)
        ensures
            b == self.contents().contains(node),
    {
        broadcast use vstd::std_specs::hash::group_hash_axioms;

        self.nodes.contains(&node)
    }

    pub fn insert(&mut self, node: u32)
        ensures
            final(self).contents() == old(self).contents().insert(node),
    {
        broadcast use vstd::std_specs::hash::group_hash_axioms;

        self.nodes.insert(node);
    }
}

/// The frame size each stream node has negotiated; a later negotiation of a
/// node replaces the earlier one.
pub struct SizeTable {
    sizes: HashMap<u32, (u32, u32)>,
}

impl SizeTable {
    pub closed spec fn sizes(self) -> Map<u32, (u32, u32)> {
        self.sizes@
    }

    pub fn new() -> (r: SizeTable)
        ensures
            r.sizes() == Map::<u32, (u32, u32)>::empty(),
    {
        SizeTable { sizes: HashMap::new() }
    }

    /// The size negotiated for `node`, if any.
    pub fn get(&self, node: u32) -> (r: Option<(u32, u32)>)
        ensures
            r == (if self.sizes().contains_key(node) { Some(self.sizes()[node]) } else { None::<(u32, u32)> }),
    {
        broadcast use vstd::std_specs::hash::group_hash_axioms;

        match self.sizes.get(&node) {
            Some(wh) => Some(*wh),
            None => None,
        }
    }

    /// Records the size negotiated for `node`.
    pub fn set(&mut self, node: u32, size: (u32, u32))
        ensures
            final(self).sizes() == old(self).sizes().insert(node, size),
    {
        broadcast use vstd::std_specs::hash::group_hash_axioms;

        self.sizes.insert(node, size);
    }
}

} // verus!

verus! {

pub open spec fn distinct_ids(ids: Seq<u32>) -> bool {
    forall|i: int, j: int| 0 <= i < j < ids.len() ==> #[trigger] ids[i] != #[trigger] ids[j]
}

/// `ord` lists every position of `ids` once, in increasing order of id.
pub open spec fn is_id_order(ids: Seq<u32>, ord: Seq<usize>) -> bool {
    &&& forall|p: int| 0 <= p < ord.len() ==> #[trigger] ord[p] < ids.len()
    &&& forall|p: int, q: int| 0 <= p < q < ord.len() ==> #[trigger] ids[ord[p] as int] < #[trigger] ids[ord[q] as int]
    &&& forall|j: int| 0 <= j < ids.len() ==> #[trigger] ord.contains(j as usize)
}

/// The positions of `ids`, which are distinct, in increasing order of id.
pub fn order_by_id(ids: &[u32]) -> (ord: Vec<usize>)
    requires
        distinct_ids(ids@),
    ensures
        is_id_order(ids@, ord@),
{
    let n = ids.len();
    let mut ord: Vec<usize> = Vec::new();
    let mut last: Option<u32> = None;
    loop
        invariant
            n == ids@.len(),
            distinct_ids(ids@),
            forall|p: int| 0 <= p < ord@.len() ==> #[trigger] ord@[p] < n,
            forall|p: int, q: int|
                0 <= p < q < ord@.len() ==> #[trigger] ids@[ord@[p] as int] < #[trigger] ids@[ord@[q] as int],
            last is None <==> ord@.len() == 0,
            last matches Some(v) ==> v == ids@[ord@[ord@.len() - 1] as int],
            last matches Some(v) ==> forall|j: int| 0 <= j < n && ids@[j] <= v ==> #[trigger] ord@.contains(j as usize),
        ensures
            forall|p: int| 0 <= p < ord@.len() ==> #[trigger] ord@[p] < n,
            forall|p: int, q: int|
                0 <= p < q < ord@.len() ==> #[trigger] ids@[ord@[p] as int] < #[trigger] ids@[ord@[q] as int],
            forall|j: int| 0 <= j < n ==> #[trigger] ord@.contains(j as usize),
        decreases
                match last {
                    None => u32::MAX + 1,
                    Some(v) => u32::MAX - v,
                },
    {
        let mut best: Option<usize> = None;
        let mut j: usize = 0;
        while j < n
            invariant
                n == ids@.len(),
                j <= n,
                best matches Some(b) ==> b < n && (last matches Some(v) ==> ids@[b as int] > v),
                best matches Some(b) ==> forall|k: int|
                    0 <= k < j && (last is Some ==> #[trigger] ids@[k] > last->Some_0) ==> ids@[b as int] <= ids@[k],
                best is None ==> forall|k: int| 0 <= k < j ==> last is Some && #[trigger] ids@[k] <= last->Some_0,
            decreases n - j,
        {
            let above = match last {
                None => true,
                Some(v) => ids[j] > v,
            };
            if above {
                match best {
                    None => {
                        best = Some(j);
                    },
                    Some(b) => {
                        if ids[j] < ids[b] {
                            best = Some(j);
                        }
                    },
                }
            }
            j += 1;
        }
        match best {
            None => {
                proof {
                    if n > 0 {
                        assert(last is Some && ids@[0] <= last->Some_0);
                    }
                }
                break;
            },
            Some(b) => {
                let ghost prev = ord@;
                let ghost prev_last = last;
                ord.push(b);
                last = Some(ids[b]);
                proof {
                    assert forall|p: int, q: int| 0 <= p < q < ord@.len() implies #[trigger] ids@[ord@[p] as int]
                        < #[trigger] ids@[ord@[q] as int] by {
                        if q == prev.len() && prev.len() > 0 {
                            assert(ids@[prev[p] as int] <= ids@[prev[prev.len() - 1] as int]);
                        }
                    }
                    assert forall|jj: int| 0 <= jj < n && ids@[jj] <= ids@[b as int] implies #[trigger] ord@.contains(
                        jj as usize,
                    ) by {
                        match prev_last {
                            Some(v) => {
                                if ids@[jj] <= v {
                                    assert(prev.contains(jj as usize));
                                    let p = choose|p: int| 0 <= p < prev.len() && prev[p] == jj as usize;
                                    assert(ord@[p] == jj as usize);
                                } else {
                                    if jj != b as int {
                                        if jj < b {
                                            assert(ids@[jj] != ids@[b as int]);
                                        } else {
                                            assert(ids@[b as int] != ids@[jj]);
                                        }
                                    }
                                    assert(ord@[prev.len() as int] == b);
                                }
                            },
                            None => {
                                if jj != b as int {
                                    if jj < b {
                                        assert(ids@[jj] != ids@[b as int]);
                                    } else {
                                        assert(ids@[b as int] != ids@[jj]);
                                    }
                                }
                                assert(ord@[prev.len() as int] == b);
                            },
                        }
                    }
                }
            },
        }
    }
    ord
}

} // verus!

verus! {

/// `i` is the first of the streams `(node, x, y)` that is of `node`.
pub open spec fn first_stream_of(streams: Seq<(u32, i32, i32)>, node: u32, i: int) -> bool {
    &&& 0 <= i < streams.len()
    &&& streams[i].0 == node
    &&& forall|j: int| 0 <= j < i ==> #[trigger] streams[j].0 != node
}

/// The place `(x, y)` on the desktop that the streams give for `node`: that of
/// the first stream of the node, if there is one.
pub open spec fn stream_place(streams: Seq<(u32, i32, i32)>, node: u32) -> Option<(i32, i32)> {
    if exists|i: int| first_stream_of(streams, node, i) {
        let i = choose|i: int| first_stream_of(streams, node, i);
        Some((streams[i].1, streams[i].2))
    } else {
        None
    }
}

/// The monitors that the frames `fs` encode to, in order, each at the place that
/// the streams give for its node; frames that fail to encode, or whose node is
/// not among the streams, are left out.
pub open spec fn encoded_successes(fs: Seq<RawFrame>, streams: Seq<(u32, i32, i32)>) -> Seq<
    (i32, i32, u32, u32, Seq<char>),
>
    decreases fs.len(),
{
    if fs.len() == 0 {
        Seq::empty()
    } else {
        let prev = encoded_successes(fs.drop_last(), streams);
        let f = fs.last();
        match stream_place(streams, f.node_id) {
            Some(place) => match frame_capture(f.data@, f.width, f.height, f.format, place.0, place.1) {
                Ok(m) => prev.push(m),
                Err(_) => prev,
            },
            None => prev,
        }
    }
}

/// Every monitor made from stream frames comes from one of the frames, lies at
/// the place that the streams give for that frame's node, and has its size.
pub proof fn lemma_shots_placed_by_streams(fs: Seq<RawFrame>, streams: Seq<(u32, i32, i32)>)
    ensures
        ({
            let shots = encoded_successes(fs, streams);
            &&& shots.len() <= fs.len()
            &&& forall|k: int|
                #![trigger shots[k]]
                0 <= k < shots.len() ==> exists|i: int|
                    0 <= i < fs.len() && stream_place(streams, #[trigger] fs[i].node_id) == Some((shots[k].0, shots[k].1))
                        && shots[k].2 == fs[i].width && shots[k].3 == fs[i].height
        }),
    decreases fs.len(),
{
    if fs.len() > 0 {
        let prev_fs = fs.drop_last();
        lemma_shots_placed_by_streams(prev_fs, streams);
        let prev = encoded_successes(prev_fs, streams);
        let shots = encoded_successes(fs, streams);
        let last = fs.len() - 1;
        let f = fs[last];
        assert forall|k: int| #![trigger shots[k]] 0 <= k < shots.len() implies exists|i: int|
            0 <= i < fs.len() && stream_place(streams, #[trigger] fs[i].node_id) == Some((shots[k].0, shots[k].1))
                && shots[k].2 == fs[i].width && shots[k].3 == fs[i].height by {
            if k < prev.len() {
                assert(shots[k] == prev[k]);
                let i = choose|i: int|
                    0 <= i < prev_fs.len() && stream_place(streams, #[trigger] prev_fs[i].node_id) == Some(
                        (prev[k].0, prev[k].1),
                    ) && prev[k].2 == prev_fs[i].width && prev[k].3 == prev_fs[i].height;
                assert(fs[i] == prev_fs[i]);
            } else {
                assert(fs[last] == f);
            }
        }
    }
}

/// The place that the streams give for `node`.
fn find_stream_place(streams: &[(u32, i32, i32)], node: u32) -> (r: Option<(i32, i32)>)
    ensures
        r == stream_place(streams@, node),
{
    let mut i: usize = 0;
    while i < streams.len()
        invariant
            i <= streams@.len(),
            forall|j: int| 0 <= j < i ==> #[trigger] streams@[j].0 != node,
        decreases streams@.len() - i,
    {
        let (n, x, y) = streams[i];
        if n == node {
            proof {
                assert(first_stream_of(streams@, node, i as int));
                let c = choose|c: int| first_stream_of(streams@, node, c);
                if c < i {
                    assert(streams@[c].0 != node);
                }
                if c > i {
                    assert(streams@[i as int].0 != node);
                }
            }
            return Some((x, y));
        }
        i += 1;
    }
    proof {
        assert forall|c: int| !first_stream_of(streams@, node, c) by {
            if 0 <= c < streams@.len() {
                assert(streams@[c].0 != node);
            }
        }
    }
    None
}

/// The streams `(node, x, y)` that delivered no frame although their size was
/// negotiated, as monitors `(x, y, width, height)`, in stream order.
pub open spec fn uncaptured_streams(streams: Seq<(u32, i32, i32)>, store: FrameStore, sizes: Map<u32, (u32, u32)>) -> Seq<
    (i32, i32, u32, u32),
>
    decreases streams.len(),
{
    if streams.len() == 0 {
        Seq::empty()
    } else {
        let prev = uncaptured_streams(streams.drop_last(), store, sizes);
        let s = streams.last();
        if !store.has_node(s.0) && sizes.contains_key(s.0) {
            prev.push((s.1, s.2, sizes[s.0].0, sizes[s.0].1))
        } else {
            prev
        }
    }
}

/// A stream that needs a fallback shot: it delivered no frame, but its size was
/// negotiated.
pub open spec fn stream_uncaptured(s: (u32, i32, i32), store: FrameStore, sizes: Map<u32, (u32, u32)>) -> bool {
    !store.has_node(s.0) && sizes.contains_key(s.0)
}

/// The fallback monitor of a stream `(node, x, y)`: where the stream puts its
/// monitor, with the negotiated size.
pub open spec fn fallback_monitor(s: (u32, i32, i32), sizes: Map<u32, (u32, u32)>) -> (i32, i32, u32, u32) {
    (s.1, s.2, sizes[s.0].0, sizes[s.0].1)
}

/// Every monitor left for a fallback shot comes from a stream that delivered no
/// frame but negotiated a size, and lies at that stream's place `(x, y)` with
/// its negotiated size.
pub proof fn lemma_uncaptured_streams_keep_their_places(streams: Seq<(u32, i32, i32)>, store: FrameStore, sizes: Map<u32, (u32, u32)>)
    ensures
        uncaptured_streams(streams, store, sizes).len() <= streams.len(),
        forall|k: int|
            #![trigger uncaptured_streams(streams, store, sizes)[k]]
            0 <= k < uncaptured_streams(streams, store, sizes).len() ==> exists|i: int|
                0 <= i < streams.len() && stream_uncaptured(#[trigger] streams[i], store, sizes)
                    && uncaptured_streams(streams, store, sizes)[k] == fallback_monitor(streams[i], sizes),
    decreases streams.len(),
{
    if streams.len() > 0 {
        let prev_s = streams.drop_last();
        lemma_uncaptured_streams_keep_their_places(prev_s, store, sizes);
        let prev = uncaptured_streams(prev_s, store, sizes);
        let u = uncaptured_streams(streams, store, sizes);
        let last = streams.len() - 1;
        assert(streams[last] == streams.last());
        assert forall|k: int| #![trigger u[k]] 0 <= k < u.len() implies exists|i: int|
            0 <= i < streams.len() && stream_uncaptured(#[trigger] streams[i], store, sizes) && u[k]
                == fallback_monitor(streams[i], sizes) by {
            if k < prev.len() {
                assert(u[k] == prev[k]);
                let i = choose|i: int|
                    0 <= i < prev_s.len() && stream_uncaptured(#[trigger] prev_s[i], store, sizes) && prev[k]
                        == fallback_monitor(prev_s[i], sizes);
                assert(streams[i] == prev_s[i]);
            } else {
                assert(stream_uncaptured(streams[last], store, sizes));
            }
        }
    }
}

/// Every stream that delivered no frame but negotiated a size is left for a
/// fallback shot, at its own place `(x, y)` with its negotiated size.
pub proof fn lemma_every_uncaptured_stream_is_listed(streams: Seq<(u32, i32, i32)>, store: FrameStore, sizes: Map<u32, (u32, u32)>)
    ensures
        forall|i: int|
            #![trigger streams[i]]
            0 <= i < streams.len() && stream_uncaptured(streams[i], store, sizes) ==> exists|k: int|
                0 <= k < uncaptured_streams(streams, store, sizes).len() && #[trigger] uncaptured_streams(
                    streams,
                    store,
                    sizes,
                )[k] == fallback_monitor(streams[i], sizes),
    decreases streams.len(),
{
    if streams.len() > 0 {
        let prev_s = streams.drop_last();
        lemma_every_uncaptured_stream_is_listed(prev_s, store, sizes);
        let prev = uncaptured_streams(prev_s, store, sizes);
        let u = uncaptured_streams(streams, store, sizes);
        let last = streams.len() - 1;
        assert(streams[last] == streams.last());
        assert forall|i: int|
            #![trigger streams[i]]
            0 <= i < streams.len() && stream_uncaptured(streams[i], store, sizes) implies exists|k: int|
                0 <= k < u.len() && #[trigger] u[k] == fallback_monitor(streams[i], sizes) by {
            if i < last {
                assert(streams[i] == prev_s[i]);
                let k = choose|k: int| 0 <= k < prev.len() && #[trigger] prev[k] == fallback_monitor(prev_s[i], sizes);
                assert(u[k] == prev[k]);
            } else {
                assert(u[u.len() - 1] == fallback_monitor(streams[last], sizes));
            }
        }
    }
}

/// `nodes` lists the nodes of `dom` once each, in increasing order.
pub open spec fn ascending_nodes(nodes: Seq<u32>, dom: Set<u32>) -> bool {
    &&& nodes.to_set() == dom
    &&& forall|i: int, j: int| 0 <= i < j < nodes.len() ==> #[trigger] nodes[i] < #[trigger] nodes[j]
}

/// The kept frames of `nodes`, in that order.
pub open spec fn frames_of(kept: Map<u32, RawFrame>, nodes: Seq<u32>) -> Seq<RawFrame> {
    nodes.map_values(|n: u32| kept[n])
}

pub open spec fn assembly_matches(
    r: Result<(Vec<MonitorCapture>, Vec<(i32, i32, u32, u32)>), String>,
    store: FrameStore,
    streams: Seq<(u32, i32, i32)>,
    sizes: Map<u32, (u32, u32)>,
    nodes: Seq<u32>,
) -> bool {
    let shots = encoded_successes(frames_of(store.kept(), nodes), streams);
    if shots.len() == 0 {
        r matches Err(e) && e@ == "Fallo al encodear frames de PipeWire"@
    } else {
        r matches Ok(p) && crate::capture::captures_view(p.0@) == shots && p.1@ == uncaptured_streams(
            streams,
            store,
            sizes,
        )
    }
}

/// The nodes that have a frame, each once, in no particular order.
fn kept_nodes(store: &FrameStore) -> (ids: Vec<u32>)
    ensures
        ids@.to_set() == store.kept().dom(),
        distinct_ids(ids@),
{
    broadcast use vstd::std_specs::hash::group_hash_axioms;

    let mut ids: Vec<u32> = Vec::new();
    for key in it: store.frames.keys()
        invariant
            ids@.len() == it.index(),
            forall|i: int| 0 <= i < it.index() ==> ids@[i] == *it.seq()[i],
    {
        ids.push(*key);
    }
    proof {
        assert(ids@ =~= spec_keys_iter(&store.frames).remaining().unref());
        assert forall|a: int, b: int| 0 <= a < b < ids@.len() implies #[trigger] ids@[a] != #[trigger] ids@[b] by {
            assert(ids@.no_duplicates());
        }
    }
    ids
}

/// The distinct ids `ids` in increasing order.
fn ascending(ids: &Vec<u32>) -> (nodes: Vec<u32>)
    requires
        distinct_ids(ids@),
    ensures
        ascending_nodes(nodes@, ids@.to_set()),
{
    let ord = order_by_id(ids);
    let mut nodes: Vec<u32> = Vec::new();
    let mut k: usize = 0;
    while k < ord.len()
        invariant
            is_id_order(ids@, ord@),
            k <= ord@.len(),
            nodes@ == ord@.take(k as int).map_values(|p: usize| ids@[p as int]),
        decreases ord@.len() - k,
    {
        nodes.push(ids[ord[k]]);
        assert(nodes@ =~= ord@.take(k + 1).map_values(|p: usize| ids@[p as int]));
        k += 1;
    }
    assert(ord@.take(ord@.len() as int) =~= ord@);
    let count = ids.len();
    let ghost ns = nodes@;
    assert forall|n: u32| ns.to_set().contains(n) <==> ids@.to_set().contains(n) by {
        if ns.to_set().contains(n) {
            let k = choose|k: int| 0 <= k < ns.len() && ns[k] == n;
            assert(ids@[ord@[k] as int] == n);
        }
        if ids@.to_set().contains(n) {
            assert(ids@.contains(n));
            let j = ids@.index_of(n);
            assert(0 <= j < count && ids@[j] == n);
            assert(ord@.contains(j as usize));
            let k = ord@.index_of(j as usize);
            assert(ns[k] == ids@[ord@[k] as int]);
            assert(ord@[k] as int == j);
            assert(ids@[j] == n);
            assert(ns[k] == n);
        }
    }
    assert(ns.to_set() =~= ids@.to_set());
    nodes
}

/// The monitors that the kept frames of `nodes` encode to, in that order.
fn encode_frames(store: &FrameStore, nodes: &Vec<u32>, streams: &[(u32, i32, i32)]) -> (monitors: Vec<MonitorCapture>)
    requires
        forall|k: int| 0 <= k < nodes@.len() ==> store.has_node(#[trigger] nodes@[k]),
    ensures
        crate::capture::captures_view(monitors@) == encoded_successes(frames_of(store.kept(), nodes@), streams@),
{
    broadcast use vstd::std_specs::hash::group_hash_axioms;

    let ghost ordered = frames_of(store.kept(), nodes@);
    let mut monitors: Vec<MonitorCapture> = Vec::new();
    let mut k: usize = 0;
    assert(ordered.take(0) =~= Seq::<RawFrame>::empty());
    assert(crate::capture::captures_view(monitors@) =~= Seq::empty());
    while k < nodes.len()
        invariant
            ordered == frames_of(store.kept(), nodes@),
            forall|k: int| 0 <= k < nodes@.len() ==> store.has_node(#[trigger] nodes@[k]),
            k <= nodes@.len(),
            crate::capture::captures_view(monitors@) == encoded_successes(ordered.take(k as int), streams@),
        decreases nodes@.len() - k,
    {
        let n = nodes[k];
        assert(store.has_node(nodes@[k as int]));
        let f = store.frames.get(&n).unwrap();
        assert(ordered[k as int] == *f);
        assert(ordered.take(k + 1).drop_last() =~= ordered.take(k as int));
        assert(ordered.take(k + 1).last() == *f);
        match find_stream_place(streams, f.node_id) {
            Some((x, y)) => {
                let data = vstd::slice::slice_to_vec(f.data.as_slice());
                match raw_pixels_to_monitor_capture(data, f.width, f.height, &f.format, x, y) {
                    Ok(m) => {
                        let ghost before = monitors@;
                        monitors.push(m);
                        assert(crate::capture::captures_view(monitors@) =~= crate::capture::captures_view(before).push(
                            m@,
                        ));
                    },
                    Err(_) => {},
                }
            },
            None => {},
        }
        k += 1;
    }
    assert(ordered.take(nodes@.len() as int) =~= ordered);
    monitors
}

/// The streams that negotiated a size but delivered no frame, as monitors.
fn uncaptured(store: &FrameStore, streams: &[(u32, i32, i32)], sizes: &SizeTable) -> (r: Vec<(i32, i32, u32, u32)>)
    ensures
        r@ == uncaptured_streams(streams@, *store, sizes.sizes()),
{
    let mut uncaptured: Vec<(i32, i32, u32, u32)> = Vec::new();
    let mut s: usize = 0;
    assert(streams@.take(0) =~= Seq::<(u32, i32, i32)>::empty());
    while s < streams.len()
        invariant
            s <= streams@.len(),
            uncaptured@ == uncaptured_streams(streams@.take(s as int), *store, sizes.sizes()),
        decreases streams@.len() - s,
    {
        let (node, x, y) = streams[s];
        assert(streams@.take(s + 1).drop_last() =~= streams@.take(s as int));
        assert(streams@.take(s + 1).last() == (node, x, y));
        if !store.contains(node) {
            match sizes.get(node) {
                Some(wh) => {
                    uncaptured.push((x, y, wh.0, wh.1));
                },
                None => {},
            }
        }
        s += 1;
    }
    assert(streams@.take(streams@.len() as int) =~= streams@);
    uncaptured
}

/// Turns the frames of a finished screen-cast capture into monitors, by
/// increasing node id, each placed where the streams put its node, leaving out
/// frames that fail to encode (or whose node no stream has); and lists the
/// streams that negotiated a size but delivered no frame, for a fallback
/// capture. Fails when no frame arrived, or none could be encoded.
pub fn assemble_stream_captures(store: &FrameStore, streams: &[(u32, i32, i32)], sizes: &SizeTable) -> (r: Result<
    (Vec<MonitorCapture>, Vec<(i32, i32, u32, u32)>),
    String,
>)
    ensures
        store.kept().dom() == Set::<u32>::empty() ==> (r matches Err(e) && e@
            == "No se recibieron frames de PipeWire (timeout o error)"@),
        store.kept().dom() != Set::<u32>::empty() ==> exists|nodes: Seq<u32>|
            ascending_nodes(nodes, store.kept().dom()) && assembly_matches(r, *store, streams@, sizes.sizes(), nodes),
{
    let ids = kept_nodes(store);
    if ids.len() == 0 {
        assert(store.kept().dom() =~= Set::<u32>::empty());
        return Err(String::from_str("No se recibieron frames de PipeWire (timeout o error)"));
    }
    assert(ids@.to_set().contains(ids@[0]));
    let nodes = ascending(&ids);
    assert forall|k: int| 0 <= k < nodes@.len() implies store.has_node(#[trigger] nodes@[k]) by {
        assert(nodes@.to_set().contains(nodes@[k]));
    }
    let monitors = encode_frames(store, &nodes, streams);
    if monitors.len() == 0 {
        let r = Err(String::from_str("Fallo al encodear frames de PipeWire"));
        assert(assembly_matches(r, *store, streams@, sizes.sizes(), nodes@));
        return r;
    }
    let r = Ok((monitors, uncaptured(store, streams, sizes)));
    assert(assembly_matches(r, *store, streams@, sizes.sizes(), nodes@));
    r
}

} // verus!

verus! {

proof fn lemma_id_order_prefix(ids: Seq<u32>, a: Seq<usize>, b: Seq<usize>, p: int)
    requires
        distinct_ids(ids),
        is_id_order(ids, a),
        is_id_order(ids, b),
        0 <= p <= a.len(),
        0 <= p <= b.len(),
    ensures
        forall|q: int| 0 <= q < p ==> a[q] == b[q],
    decreases p,
{
    if p > 0 {
        lemma_id_order_prefix(ids, a, b, p - 1);
        let q = p - 1;
        let x = a[q];
        let y = b[q];
        let xi = x as int;
        assert(b.contains(xi as usize));
        let r = choose|r: int| 0 <= r < b.len() && b[r] == x;
        let yi = y as int;
        assert(a.contains(yi as usize));
        let r2 = choose|r: int| 0 <= r < a.len() && a[r] == y;
        if r < q {
            assert(a[r] == b[r]);
            assert(ids[a[r] as int] < ids[a[q] as int]);
        }
        if r2 < q {
            assert(a[r2] == b[r2]);
            assert(ids[b[r2] as int] < ids[b[q] as int]);
        }
        if r > q {
            assert(ids[b[q] as int] < ids[b[r] as int]);
        }
        if r2 > q {
            assert(ids[a[q] as int] < ids[a[r2] as int]);
        }
        assert(ids[x as int] == ids[y as int]);
        if x != y {
            if x < y {
                assert(ids[x as int] != ids[y as int]);
            } else {
                assert(ids[y as int] != ids[x as int]);
            }
        }
    }
}

/// Distinct ids have exactly one increasing order: the order in which the
/// stream frames come out is fixed by their node ids.
pub proof fn lemma_id_order_unique(ids: Seq<u32>, a: Seq<usize>, b: Seq<usize>)
    requires
        distinct_ids(ids),
        is_id_order(ids, a),
        is_id_order(ids, b),
    ensures
        a == b,
{
    if a.len() < b.len() {
        lemma_id_order_prefix(ids, a, b, a.len() as int);
        let p = a.len() as int;
        let y = b[p];
        let yi = y as int;
        assert(a.contains(yi as usize));
        let r = choose|r: int| 0 <= r < a.len() && a[r] == y;
        assert(b[r] == y);
        assert(ids[b[r] as int] < ids[b[p] as int]);
    } else if b.len() < a.len() {
        lemma_id_order_prefix(ids, a, b, b.len() as int);
        let p = b.len() as int;
        let x = a[p];
        let xi = x as int;
        assert(b.contains(xi as usize));
        let r = choose|r: int| 0 <= r < b.len() && b[r] == x;
        assert(a[r] == x);
        assert(ids[a[r] as int] < ids[a[p] as int]);
    } else {
        lemma_id_order_prefix(ids, a, b, a.len() as int);
        assert(a =~= b);
    }
}

} // verus!

verus! {

pub open spec fn retrigger_filter(nodes: Seq<u32>, streaming: Set<u32>, store: FrameStore) -> Seq<u32>
    decreases nodes.len(),
{
    if nodes.len() == 0 {
        Seq::empty()
    } else {
        let prev = retrigger_filter(nodes.drop_last(), streaming, store);
        let n = nodes.last();
        if streaming.contains(n) && !store.has_node(n) {
            prev.push(n)
        } else {
            prev
        }
    }
}

/// The stream nodes, in order, whose first frame is to be requested again:
/// those already streaming that have not delivered a frame yet. Nodes that are
/// not streaming are left alone.
pub fn nodes_to_retrigger(nodes: &[u32], streaming: &NodeSet, store: &FrameStore) -> (r: Vec<u32>)
    ensures
        r@ == retrigger_filter(nodes@, streaming.contents(), *store),
{
    let mut r: Vec<u32> = Vec::new();
    let mut i: usize = 0;
    assert(nodes@.take(0) =~= Seq::<u32>::empty());
    while i < nodes.len()
        invariant
            i <= nodes@.len(),
            r@ == retrigger_filter(nodes@.take(i as int), streaming.contents(), *store),
        decreases nodes@.len() - i,
    {
        let n = nodes[i];
        assert(nodes@.take(i + 1).drop_last() =~= nodes@.take(i as int));
        assert(nodes@.take(i + 1).last() == n);
        if streaming.contains(n) && !store.contains(n) {
            r.push(n);
        }
        i += 1;
    }
    assert(nodes@.take(nodes@.len() as int) =~= nodes@);
    r
}

proof fn lemma_ascending_prefix(a: Seq<u32>, b: Seq<u32>, dom: Set<u32>, p: int)
    requires
        ascending_nodes(a, dom),
        ascending_nodes(b, dom),
        0 <= p <= a.len(),
        0 <= p <= b.len(),
    ensures
        forall|q: int| 0 <= q < p ==> a[q] == b[q],
    decreases p,
{
    if p > 0 {
        lemma_ascending_prefix(a, b, dom, p - 1);
        let q = p - 1;
        let x = a[q];
        let y = b[q];
        assert(a.to_set().contains(x));
        assert(b.to_set().contains(x));
        assert(b.contains(x));
        let r = b.index_of(x);
        if r < q {
            assert(a[r] == b[r]);
            assert(a[r] < a[q]);
        }
        assert(b.to_set().contains(y));
        assert(a.to_set().contains(y));
        assert(a.contains(y));
        let r2 = a.index_of(y);
        if r2 < q {
            assert(a[r2] == b[r2]);
            assert(b[r2] < b[q]);
        }
        if r > q {
            assert(b[q] < b[r]);
        }
        if r2 > q {
            assert(a[q] < a[r2]);
        }
    }
}

/// The kept nodes have exactly one increasing order: the order in which the
/// stream frames come out is fixed by their nodes.
pub proof fn lemma_ascending_nodes_unique(a: Seq<u32>, b: Seq<u32>, dom: Set<u32>)
    requires
        ascending_nodes(a, dom),
        ascending_nodes(b, dom),
    ensures
        a == b,
{
    if a.len() < b.len() {
        lemma_ascending_prefix(a, b, dom, a.len() as int);
        let p = a.len() as int;
        let y = b[p];
        assert(b.to_set().contains(y));
        assert(a.to_set().contains(y));
        assert(a.contains(y));
        let r = a.index_of(y);
        assert(b[r] == y);
        assert(b[r] < b[p]);
    } else if b.len() < a.len() {
        lemma_ascending_prefix(a, b, dom, b.len() as int);
        let p = b.len() as int;
        let x = a[p];
        assert(a.to_set().contains(x));
        assert(b.to_set().contains(x));
        assert(b.contains(x));
        let r = b.index_of(x);
        assert(a[r] == x);
        assert(a[r] < a[p]);
    } else {
        lemma_ascending_prefix(a, b, dom, a.len() as int);
        assert(a =~= b);
    }
}

} // verus!
