use vstd::prelude::*;

verus! {

/// The outcome of polling a non-blocking future once.
pub enum NbPoll<T> {
    /// The future has finished with this output.
    Ready(T),
    /// The future has more work to do.
    Pending,
}

impl<T> NbPoll<T> {
    /// Whether the future has finished.
    pub fn is_ready(&self) -> (r: bool)
        ensures
            r == (self is Ready),
    {
        match self {
            NbPoll::Ready(_) => true,
            NbPoll::Pending => false,
        }
    }
}

/// A future that is driven by repeated polling, without wakers.
pub trait NonblockingFuture {
    type Output;

    /// Makes as much progress as possible without blocking.
    fn poll_nb(&mut self) -> NbPoll<Self::Output>;
}

/// Convenience methods for every [`NonblockingFuture`].
pub trait NonblockingFutureExt: NonblockingFuture {
    /// Polls the future once.
    fn poll_nb_unpin(&mut self) -> NbPoll<Self::Output> {
        self.poll_nb()
    }
}

impl<T: NonblockingFuture> NonblockingFutureExt for T {}

impl<'a, F: NonblockingFuture + ?Sized> NonblockingFuture for &'a mut F {
    type Output = F::Output;

    fn poll_nb(&mut self) -> NbPoll<Self::Output> {
        (**self).poll_nb()
    }
}

impl<F: NonblockingFuture + ?Sized> NonblockingFuture for Box<F> {
    type Output = F::Output;

    fn poll_nb(&mut self) -> NbPoll<Self::Output> {
        (**self).poll_nb()
    }
}

} // verus!
