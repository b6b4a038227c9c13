use vstd::prelude::*;

verus! {

/// An arena for a binary tree whose slots keep their positions.
pub struct StableBinaryTree<T> {
    data: Vec<Option<T>>,
}

impl<T> View for StableBinaryTree<T> {
    type V = Seq<Option<T>>;

    closed spec fn view(&self) -> Seq<Option<T>> {
        self.data@
    }
}

impl<T> StableBinaryTree<T> {
    /// An arena of `capacity` empty slots.
    pub fn with_capacity(capacity: usize) -> (r: Self)
        ensures
            r@ == Seq::new(capacity as nat, |i: int| None::<T>),
    {
        let mut data: Vec<Option<T>> = Vec::new();
        let mut i: usize = 0;
        while i < capacity
            invariant
                i <= capacity,
                data@ == Seq::new(i as nat, |k: int| None::<T>),
            decreases capacity - i,
        {
            data.push(None);
            i = i + 1;
            assert(data@ =~= Seq::new(i as nat, |k: int| None::<T>));
        }
        Self { data }
    }
}

} // verus!
