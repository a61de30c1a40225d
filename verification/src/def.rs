//! Resource descriptors, the registry that numbers them, and the typed
//! accessor that call sites hold.

use crate::error::NsError;
use crate::layout::Layout;
use core::marker::PhantomData;
use vstd::prelude::*;

verus! {

/// The descriptor of one resource type: the layout of an instance, the bytes
/// of a default instance, and the index that the registry gave it.
pub struct Resource {
    layout: Layout,
    init: Vec<u8>,
    index: usize,
}

impl Resource {
    #[verifier::type_invariant]
    pub closed spec fn inv(self) -> bool {
        &&& self.layout.wf()
        &&& self.layout.size() > 0
        &&& self.init@.len() == self.layout.size()
    }

    pub closed spec fn spec_layout(&self) -> Layout {
        self.layout
    }

    pub closed spec fn spec_init(&self) -> &Vec<u8> {
        &self.init
    }

    pub closed spec fn spec_index(&self) -> usize {
        self.index
    }

    /// What every descriptor satisfies: an instance has a size, and the
    /// default instance has that size.
    pub open spec fn wf(&self) -> bool {
        &&& self.layout().wf()
        &&& self.layout().size() > 0
        &&& self.init()@.len() == self.layout().size()
    }

    /// The layout of an instance.
    #[verifier::when_used_as_spec(spec_layout)]
    pub fn layout(&self) -> (r: Layout)
        ensures
            r == self.layout(),
            self.wf(),
    {
        proof {
            use_type_invariant(self);
        }
        self.layout
    }

    /// The bytes of a default instance.
    #[verifier::when_used_as_spec(spec_init)]
    pub fn init(&self) -> (r: &Vec<u8>)
        ensures
            r == self.init(),
            self.wf(),
    {
        proof {
            use_type_invariant(self);
        }
        &self.init
    }

    /// The position of this descriptor in its registry.
    #[verifier::when_used_as_spec(spec_index)]
    pub fn index(&self) -> (r: usize)
        ensures
            r == self.index(),
    {
        self.index
    }
}

/// The catalog of resource types. Descriptors are appended in the order of
/// registration, and each keeps the index it was appended at. Once frozen, the
/// catalog takes no more.
pub struct Registry {
    resources: Vec<Resource>,
    frozen: bool,
}

impl View for Registry {
    type V = Seq<Resource>;

    closed spec fn view(&self) -> Seq<Resource> {
        self.resources@
    }
}

impl Registry {
    /// Every descriptor is valid and sits at its own index.
    pub open spec fn wf(&self) -> bool {
        forall|i: int|
            0 <= i < self@.len() ==> (#[trigger] self@[i]).wf() && self@[i].index() == i
    }

    pub closed spec fn spec_is_frozen(&self) -> bool {
        self.frozen
    }

    pub open spec fn spec_len(&self) -> usize {
        self@.len() as usize
    }

    /// Whether some registered descriptor has the index `k`.
    pub open spec fn has_index(&self, k: int) -> bool {
        exists|i: int| 0 <= i < self@.len() && (#[trigger] self@[i]).index() == k
    }

    /// The indices of the registered descriptors are the numbers below their
    /// count, each of them held by one descriptor: no two descriptors share an
    /// index, and no number below the count is left out.
    pub proof fn lemma_indices_dense(&self)
        requires
            self.wf(),
        ensures
            forall|i: int|
                0 <= i < self@.len() ==> 0 <= (#[trigger] self@[i]).index() < self@.len(),
            forall|i: int, j: int|
                0 <= i < self@.len() && 0 <= j < self@.len() && i != j ==> (
                #[trigger] self@[i]).index() != (#[trigger] self@[j]).index(),
            forall|k: int| 0 <= k < self@.len() ==> #[trigger] self.has_index(k),
    {
        assert forall|k: int| 0 <= k < self@.len() implies #[trigger] self.has_index(k) by {
            assert(self@[k].index() == k);
        }
    }

    /// An empty registry, open for registration.
    pub fn new() -> (r: Registry)
        ensures
            r.wf(),
            r@.len() == 0,
            !r.is_frozen(),
    {
        Registry { resources: Vec::new(), frozen: false }
    }

    /// Whether registration is over.
    #[verifier::when_used_as_spec(spec_is_frozen)]
    pub fn is_frozen(&self) -> (r: bool)
        ensures
            r == self.is_frozen(),
    {
        self.frozen
    }

    /// The number of registered descriptors.
    #[verifier::when_used_as_spec(spec_len)]
    pub fn len(&self) -> (r: usize)
        ensures
            r == self@.len(),
    {
        self.resources.len()
    }

    /// The descriptor registered at `index`.
    pub fn get(&self, index: usize) -> (r: &Resource)
        requires
            index < self@.len(),
        ensures
            *r == self@[index as int],
    {
        &self.resources[index]
    }

    /// Ends registration. The descriptors stay as they are.
    pub fn freeze(&mut self)
        ensures
            final(self).is_frozen(),
            final(self)@ == old(self)@,
    {
        self.frozen = true;
    }

    /// Registers a resource type whose instances have the layout `layout` and
    /// whose default instance is `init`, and returns its index: the number of
    /// descriptors registered before it.
    ///
    /// A resource of size zero is refused, and so is any resource once the
    /// registry is frozen. A refusal leaves the registry unchanged.
    pub fn register(&mut self, layout: Layout, init: Vec<u8>) -> (r: Result<usize, NsError>)
        requires
            old(self).wf(),
            init@.len() == layout.size(),
        ensures
            final(self).wf(),
            final(self).is_frozen() == old(self).is_frozen(),
            match r {
                Ok(index) => {
                    &&& layout.size() > 0
                    &&& !old(self).is_frozen()
                    &&& index == old(self)@.len()
                    &&& final(self)@.len() == old(self)@.len() + 1
                    &&& final(self)@.take(index as int) == old(self)@
                    &&& final(self)@[index as int].layout() == layout
                    &&& final(self)@[index as int].init()@ == init@
                    &&& final(self)@[index as int].index() == index
                },
                Err(e) => {
                    &&& final(self)@ == old(self)@
                    &&& e == if layout.size() == 0 {
                        NsError::ZeroSizedResource
                    } else {
                        NsError::RegistrationAfterFreeze
                    }
                    &&& layout.size() == 0 || old(self).is_frozen()
                },
            },
    {
        if layout.size() == 0 {
            return Err(NsError::ZeroSizedResource);
        }
        if self.frozen {
            return Err(NsError::RegistrationAfterFreeze);
        }
        let index: usize = self.resources.len();
        self.resources.push(Resource { layout, init, index });
        proof {
            assert(final(self)@.take(index as int) =~= old(self)@);
        }
        Ok(index)
    }
}

/// A typed accessor: the descriptor of a resource together with the type of
/// its instances. It holds nothing else.
pub struct ResWrapper<T>(&'static Resource, PhantomData<T>);

impl<T> Clone for ResWrapper<T> {
    fn clone(&self) -> (r: Self)
        ensures
            r == *self,
    {
        Self(self.0, PhantomData)
    }
}

impl<T> Copy for ResWrapper<T> {

}

impl<T> ResWrapper<T> {
    pub closed spec fn spec_res(&self) -> &'static Resource {
        self.0
    }

    /// The accessor for the resource that `res` describes.
    pub fn new(res: &'static Resource) -> (r: Self)
        ensures
            r.res() == res,
    {
        Self(res, PhantomData)
    }

    /// The descriptor that this accessor reaches.
    #[verifier::when_used_as_spec(spec_res)]
    pub fn res(&self) -> (r: &'static Resource)
        ensures
            r == self.res(),
    {
        self.0
    }
}

} // verus!
