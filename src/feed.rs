use vstd::prelude::*;

verus! {

/// The shared pull queue of pending URLs: a flume channel of which the feed
/// holds both ends, so that nothing else can add to it or take from it.
///
/// The two ends share one queue behind a reference count, so neither end alone
/// can be given a model of its contents: the pair is kept opaque, and its
/// contents are `queued`.
#[verifier::external_body]
pub struct JobFeed {
    sender: flume::Sender<String>,
    receiver: flume::Receiver<String>,
}

/// The URLs waiting in a feed, front first.
pub uninterp spec fn queued(f: JobFeed) -> Seq<Seq<char>>;

impl JobFeed {
    /// Relies on `flume::unbounded`: a new channel holds nothing.
    #[verifier::external_body]
    pub(crate) fn new() -> (r: JobFeed)
        ensures
            queued(r) == Seq::<Seq<char>>::empty(),
    {
        let (sender, receiver) = flume::unbounded();
        JobFeed { sender, receiver }
    }

    /// Relies on `flume::Sender::send` on an unbounded channel whose receiver
    /// is alive: the URL joins the back of the queue and the call does not
    /// block.
    #[verifier::external_body]
    pub(crate) fn push(&mut self, url: String)
        ensures
            queued(*final(self)) == queued(*old(self)).push(url@),
    {
        let _ = self.sender.send(url);
    }

    /// Relies on `flume::Receiver::try_recv` while a sender is alive: it takes
    /// the front of the queue, or reports an empty queue without waiting.
    #[verifier::external_body]
    pub(crate) fn pull(&mut self) -> (r: Option<String>)
        ensures
            queued(*old(self)).len() == 0 ==> r is None && queued(*final(self)) == queued(
                *old(self),
            ),
            queued(*old(self)).len() > 0 ==> r is Some && r->0@ == queued(*old(self))[0]
                && queued(*final(self)) == queued(*old(self)).drop_first(),
    {
        self.receiver.try_recv().ok()
    }
}

} // verus!
