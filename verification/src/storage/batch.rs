//! Writes that are applied together.

use vstd::prelude::*;

verus! {

#[derive(Debug, Clone)]
pub enum BatchOperation {
    Put { key: Vec<u8>, value: Vec<u8> },
    Delete { key: Vec<u8> },
}

/// An operation as a mathematical value: a key and its new value, none for a deletion.
#[verifier::ext_equal]
pub struct OperationView {
    pub key: Seq<u8>,
    pub value: Option<Seq<u8>>,
}

impl View for BatchOperation {
    type V = OperationView;

    open spec fn view(&self) -> OperationView {
        match self {
            BatchOperation::Put { key, value } => OperationView {
                key: key@,
                value: Some(value@),
            },
            BatchOperation::Delete { key } => OperationView { key: key@, value: None },
        }
    }
}

pub open spec fn operation_views(operations: Seq<BatchOperation>) -> Seq<OperationView> {
    operations.map_values(|op: BatchOperation| op@)
}

#[derive(Debug, Clone)]
pub struct WriteBatch {
    operations: Vec<BatchOperation>,
    approximate_size: usize,
}

impl View for WriteBatch {
    type V = Seq<OperationView>;

    closed spec fn view(&self) -> Seq<OperationView> {
        operation_views(self.operations@)
    }
}

impl WriteBatch {
    /// The bytes of all keys and values.
    pub closed spec fn spec_size(&self) -> usize {
        self.approximate_size
    }

    pub fn new() -> (batch: Self)
        ensures
            batch@ == Seq::<OperationView>::empty(),
            batch.spec_size() == 0,
    {
        let batch = WriteBatch { operations: Vec::new(), approximate_size: 0 };
        assert(batch@ =~= Seq::empty());
        batch
    }

    pub fn with_capacity(capacity: usize) -> (batch: Self)
        ensures
            batch@ == Seq::<OperationView>::empty(),
            batch.spec_size() == 0,
    {
        let batch = WriteBatch { operations: Vec::with_capacity(capacity), approximate_size: 0 };
        assert(batch@ =~= Seq::empty());
        batch
    }

    pub fn put(&mut self, key: Vec<u8>, value: Vec<u8>)
        ensures
            final(self)@ == old(self)@.push(OperationView { key: key@, value: Some(value@) }),
            final(self).spec_size() == usize::wrapping_add(
                old(self).spec_size(),
                usize::wrapping_add(key@.len() as usize, value@.len() as usize),
            ),
    {
        let added: usize = key.len().wrapping_add(value.len());
        self.approximate_size = self.approximate_size.wrapping_add(added);
        self.operations.push(BatchOperation::Put { key, value });
        assert(self@ =~= old(self)@.push(OperationView { key: key@, value: Some(value@) }));
    }

    pub fn delete(&mut self, key: Vec<u8>)
        ensures
            final(self)@ == old(self)@.push(OperationView { key: key@, value: None }),
            final(self).spec_size() == usize::wrapping_add(
                old(self).spec_size(),
                key@.len() as usize,
            ),
    {
        self.approximate_size = self.approximate_size.wrapping_add(key.len());
        self.operations.push(BatchOperation::Delete { key });
        assert(self@ =~= old(self)@.push(OperationView { key: key@, value: None }));
    }

    pub fn clear(&mut self)
        ensures
            final(self)@ == Seq::<OperationView>::empty(),
            final(self).spec_size() == 0,
    {
        self.operations.clear();
        self.approximate_size = 0;
        assert(self@ =~= Seq::empty());
    }

    pub fn len(&self) -> (len: usize)
        ensures
            len == self@.len(),
    {
        self.operations.len()
    }

    pub fn is_empty(&self) -> (empty: bool)
        ensures
            empty == (self@.len() == 0),
    {
        self.operations.len() == 0
    }

    pub fn approximate_size(&self) -> (size: usize)
        ensures
            size == self.spec_size(),
    {
        self.approximate_size
    }

    /// The operations in the order in which they were added.
    pub fn iter(&self) -> (operations: &[BatchOperation])
        ensures
            operation_views(operations@) == self@,
    {
        self.operations.as_slice()
    }

    /// Takes the operations out.
    pub fn into_operations(self) -> (operations: Vec<BatchOperation>)
        ensures
            operation_views(operations@) == self@,
    {
        self.operations
    }
}

impl Default for WriteBatch {
    fn default() -> (batch: Self)
        ensures
            batch@ == Seq::<OperationView>::empty(),
            batch.spec_size() == 0,
    {
        WriteBatch::new()
    }
}

} // verus!
