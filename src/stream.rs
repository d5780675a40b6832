//! The byte stream that a run of buffers carries, and what a write of `n`
//! bytes leaves of it.
use vstd::prelude::*;

verus! {

/// The bytes of the buffers `bufs`, one after another.
pub open spec fn flatten(bufs: Seq<Seq<u8>>) -> Seq<u8>
    decreases bufs.len(),
{
    if bufs.len() == 0 {
        Seq::<u8>::empty()
    } else {
        bufs[0] + flatten(bufs.drop_first())
    }
}

/// What is left of the descriptors `bufs` once `n` bytes of them are written:
/// every buffer, front first, that fits in what remains of `n` is retired,
/// and the first one that does not fit loses that many bytes from its front.
pub open spec fn drain(bufs: Seq<Seq<u8>>, n: nat) -> Seq<Seq<u8>>
    decreases bufs.len(),
{
    if bufs.len() == 0 {
        bufs
    } else if bufs[0].len() <= n {
        drain(bufs.drop_first(), (n - bufs[0].len()) as nat)
    } else {
        bufs.update(0, bufs[0].subrange(n as int, bufs[0].len() as int))
    }
}

/// The bytes of two runs of buffers, one after the other, are the bytes of
/// the first run followed by those of the second.
pub proof fn lemma_flatten_append(a: Seq<Seq<u8>>, b: Seq<Seq<u8>>)
    ensures
        flatten(a + b) == flatten(a) + flatten(b),
    decreases a.len(),
{
    if a.len() == 0 {
        assert(a + b =~= b);
        assert(flatten(a) + flatten(b) =~= flatten(b));
    } else {
        assert((a + b).drop_first() =~= a.drop_first() + b);
        lemma_flatten_append(a.drop_first(), b);
        assert(flatten(a + b) =~= flatten(a) + flatten(b));
    }
}

/// Writing `n` bytes consumes the stream from its front and nothing else:
/// what is left carries the stream's bytes after its first `n` (none when
/// `n` covers it all).
pub proof fn lemma_drain_takes_front(bufs: Seq<Seq<u8>>, n: nat)
    ensures
        flatten(drain(bufs, n)) == flatten(bufs).subrange(
            if n <= flatten(bufs).len() { n as int } else { flatten(bufs).len() as int },
            flatten(bufs).len() as int,
        ),
    decreases bufs.len(),
{
    let all = flatten(bufs);
    if bufs.len() == 0 {
        assert(all.subrange(0, 0) =~= Seq::<u8>::empty());
    } else {
        let rest = bufs.drop_first();
        let first = bufs[0];
        assert(all == first + flatten(rest));
        if first.len() <= n {
            let m = (n - first.len()) as nat;
            lemma_drain_takes_front(rest, m);
            let k = if n <= all.len() { n as int } else { all.len() as int };
            assert(all.subrange(k, all.len() as int) =~= flatten(rest).subrange(
                k - first.len(),
                flatten(rest).len() as int,
            ));
        } else {
            let left = bufs.update(0, first.subrange(n as int, first.len() as int));
            assert(left.drop_first() =~= rest);
            assert(flatten(left) =~= all.subrange(n as int, all.len() as int));
        }
    }
}

/// Writing at least the stream's length leaves no descriptor.
pub proof fn lemma_drain_exact(bufs: Seq<Seq<u8>>, n: nat)
    requires
        n >= flatten(bufs).len(),
    ensures
        drain(bufs, n).len() == 0,
    decreases bufs.len(),
{
    if bufs.len() > 0 {
        let rest = bufs.drop_first();
        assert(flatten(bufs) == bufs[0] + flatten(rest));
        lemma_drain_exact(rest, (n - bufs[0].len()) as nat);
    }
}

/// Writing fewer bytes than the first buffer holds retires nothing: that
/// buffer loses `n` bytes from its front and the rest stay as they were.
pub proof fn lemma_drain_partial(bufs: Seq<Seq<u8>>, n: nat)
    requires
        bufs.len() > 0,
        n < bufs[0].len(),
    ensures
        drain(bufs, n).len() == bufs.len(),
        drain(bufs, n)[0] == bufs[0].subrange(n as int, bufs[0].len() as int),
        drain(bufs, n)[0].len() == bufs[0].len() - n,
        drain(bufs, n).drop_first() == bufs.drop_first(),
{
    assert(drain(bufs, n).drop_first() =~= bufs.drop_first());
}

/// First in, first out: when a batch is queued behind earlier buffers and
/// `n` bytes are then written, the bytes still queued are the earlier bytes
/// followed by the batch's bytes, less the first `n` of them.
pub proof fn lemma_fifo(queued: Seq<Seq<u8>>, batch: Seq<Seq<u8>>, n: nat)
    ensures
        flatten(drain(queued + batch, n)) == (flatten(queued) + flatten(batch)).subrange(
            if n <= flatten(queued + batch).len() { n as int } else { flatten(queued + batch).len() as int },
            flatten(queued + batch).len() as int,
        ),
{
    lemma_flatten_append(queued, batch);
    lemma_drain_takes_front(queued + batch, n);
}

} // verus!
