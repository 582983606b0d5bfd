//! Bookkeeping for hashing many files in the background: what has arrived
//! from the worker, and the progress to report after each poll.

use crate::ihash::IHash;
use vstd::prelude::*;

verus! {

/// A fingerprint and the path of the file it was computed from.
pub type HashPair = (IHash, String);

/// The plain value of a fingerprint and path pair.
pub open spec fn pair_view(p: HashPair) -> (u64, Seq<char>) {
    (p.0.value, p.1@)
}

/// One result of polling the worker's channel without blocking.
pub enum Poll {
    /// A result was waiting.
    Item(HashPair),
    /// Nothing is waiting yet.
    Empty,
    /// The worker has finished and closed the channel.
    Disconnected,
}

/// The results at the front of `polled`, up to the first poll that found none.
pub open spec fn arrived(polled: Seq<Poll>) -> Seq<(u64, Seq<char>)>
    decreases polled.len(),
{
    if polled.len() == 0 {
        Seq::empty()
    } else {
        match polled[0] {
            Poll::Item(p) => seq![pair_view(p)] + arrived(polled.drop_first()),
            _ => Seq::empty(),
        }
    }
}

/// Whether the first poll of `polled` that found no result found the channel closed.
pub open spec fn disconnects(polled: Seq<Poll>) -> bool
    decreases polled.len(),
{
    if polled.len() == 0 {
        false
    } else {
        match polled[0] {
            Poll::Item(_) => disconnects(polled.drop_first()),
            Poll::Empty => false,
            Poll::Disconnected => true,
        }
    }
}

/// What the worker has delivered so far.
pub struct Response {
    contents: Vec<HashPair>,
    num_files: usize,
    complete: bool,
}

impl View for Response {
    type V = Seq<(u64, Seq<char>)>;

    closed spec fn view(&self) -> Seq<(u64, Seq<char>)> {
        self.contents@.map_values(|p: HashPair| pair_view(p))
    }
}

/// What a round of polling reports.
pub enum Progress {
    /// The worker was started.
    Started,
    /// `hashed` of `total` files are done; `hashes` arrived in this round.
    Advanced { hashed: usize, total: usize, hashes: Vec<HashPair> },
    /// The worker has closed its channel.
    Finished,
    /// The worker failed.
    Errored,
}

impl Response {
    /// Whether the worker has closed its channel.
    pub closed spec fn is_complete(&self) -> bool {
        self.complete
    }

    /// The number of files handed to the worker.
    pub closed spec fn total(&self) -> nat {
        self.num_files as nat
    }

    /// A response for a worker given `num_files` files, before anything arrived.
    pub fn new(num_files: usize) -> (r: Self)
        ensures
            r@ == Seq::<(u64, Seq<char>)>::empty(),
            r.total() == num_files,
            !r.is_complete(),
    {
        let r = Response { contents: Vec::new(), num_files, complete: false };
        assert(r@ =~= Seq::<(u64, Seq<char>)>::empty());
        r
    }

    /// Takes the results of one round of polling, up to the first poll that
    /// found none; they are kept and returned. A closed channel marks the
    /// response complete.
    pub fn chunk(&mut self, polled: Vec<Poll>) -> (r: Vec<HashPair>)
        ensures
            r@.map_values(|p: HashPair| pair_view(p)) == arrived(polled@),
            final(self)@ == old(self)@ + arrived(polled@),
            final(self).is_complete() == (old(self).is_complete() || disconnects(polled@)),
            final(self).total() == old(self).total(),
    {
        let mut out: Vec<HashPair> = Vec::new();
        let mut i: usize = 0;
        let ghost start = self@;
        assert(polled@.skip(0) =~= polled@);
        assert(out@.map_values(|p: HashPair| pair_view(p)) =~= Seq::<(u64, Seq<char>)>::empty());
        assert(self@ =~= start + out@.map_values(|p: HashPair| pair_view(p)));
        while i < polled.len()
            invariant
                i <= polled.len(),
                start == old(self)@,
                arrived(polled@) == out@.map_values(|p: HashPair| pair_view(p)) + arrived(polled@.skip(i as int)),
                disconnects(polled@) == disconnects(polled@.skip(i as int)),
                self@ == start + out@.map_values(|p: HashPair| pair_view(p)),
                self.complete == old(self).complete,
                self.num_files == old(self).num_files,
            decreases polled.len() - i,
        {
            assert(polled@.skip(i as int).drop_first() =~= polled@.skip(i + 1));
            assert(polled@.skip(i as int)[0] == polled@[i as int]);
            match &polled[i] {
                Poll::Item(p) => {
                    let q: HashPair = (p.0, p.1.clone());
                    let ghost before = out@;
                    let ghost kept = self.contents@;
                    assert(self@ == kept.map_values(|p: HashPair| pair_view(p)));
                    out.push((p.0, p.1.clone()));
                    self.contents.push(q);
                    assert(self.contents@.map_values(|p: HashPair| pair_view(p)) =~= kept.map_values(
                        |p: HashPair| pair_view(p),
                    ).push(pair_view(q)));
                    assert(out@.map_values(|p: HashPair| pair_view(p)) =~= before.map_values(
                        |p: HashPair| pair_view(p),
                    ) + seq![pair_view(polled@[i as int]->Item_0)]);
                    assert(self@ =~= start + out@.map_values(|p: HashPair| pair_view(p)));
                },
                Poll::Empty => {
                    assert(arrived(polled@.skip(i as int)) =~= Seq::<(u64, Seq<char>)>::empty());
                    assert(out@.map_values(|p: HashPair| pair_view(p)) =~= arrived(polled@));
                    return out;
                },
                Poll::Disconnected => {
                    assert(arrived(polled@.skip(i as int)) =~= Seq::<(u64, Seq<char>)>::empty());
                    assert(out@.map_values(|p: HashPair| pair_view(p)) =~= arrived(polled@));
                    self.complete = true;
                    return out;
                },
            }
            i = i + 1;
        }
        assert(arrived(polled@.skip(i as int)) =~= Seq::<(u64, Seq<char>)>::empty());
        assert(out@.map_values(|p: HashPair| pair_view(p)) =~= arrived(polled@));
        out
    }

    /// The number of files handed to the worker.
    pub fn content_length(&self) -> (r: usize)
        ensures
            r == self.total(),
    {
        self.num_files
    }

    /// Whether the worker has closed its channel.
    pub fn complete(&self) -> (r: bool)
        ensures
            r == self.is_complete(),
    {
        self.complete
    }
}

/// One round of polling while hashing: takes what arrived, counts it, and
/// reports it as progress. Once the channel is closed and a round brings
/// nothing more, reports that the worker finished, so no result is dropped.
/// Returns the report and the new count of hashed files.
pub fn hashing_step(response: &mut Response, num_hashed: usize, polled: Vec<Poll>) -> (r: (Progress, usize))
    requires
        num_hashed + polled@.len() <= usize::MAX,
    ensures
        r.1 == num_hashed + arrived(polled@).len(),
        final(response)@ == old(response)@ + arrived(polled@),
        final(response).total() == old(response).total(),
        final(response).is_complete() == (old(response).is_complete() || disconnects(polled@)),
        (r.0 is Finished) <==> (final(response).is_complete() && arrived(polled@).len() == 0),
        !(final(response).is_complete() && arrived(polled@).len() == 0) ==> match r.0 {
            Progress::Advanced { hashed, total, hashes } => {
                &&& hashed == r.1
                &&& total == old(response).total()
                &&& hashes@.map_values(|p: HashPair| pair_view(p)) == arrived(polled@)
            },
            _ => false,
        },
{
    proof {
        lemma_arrived_len(polled@);
    }
    let chunk = response.chunk(polled);
    proof {
        assert(chunk@.len() == chunk@.map_values(|p: HashPair| pair_view(p)).len());
    }
    let hashed = num_hashed + chunk.len();
    if !response.complete() || chunk.len() > 0 {
        let total = response.content_length();
        (Progress::Advanced { hashed, total, hashes: chunk }, hashed)
    } else {
        (Progress::Finished, hashed)
    }
}

proof fn lemma_arrived_len(polled: Seq<Poll>)
    ensures
        arrived(polled).len() <= polled.len(),
    decreases polled.len(),
{
    if polled.len() > 0 {
        lemma_arrived_len(polled.drop_first());
    }
}

} // verus!
