//! What can go wrong in the store and in queries.

use vstd::prelude::*;


verus! {

/// An error of the store or of a query.
#[derive(Debug)]
pub enum DbError {
    /// The database failed.
    Storage(sled::Error),
    /// A stored key does not have the form that its tree's keys have.
    InvalidKey,
    /// Data does not have the form that it should have, or a query asks for too much.
    InvalidData(String),
    /// An entity has another version than a transaction expected.
    TransactionConflict {
        /// The entity.
        entity_id: [u8; 16],
        /// The version that the transaction expected.
        expected: u64,
        /// The version that the store has.
        actual: u64,
    },
}

/// An error in mathematical terms.
pub ghost enum ErrorView {
    /// See [`DbError::Storage`].
    Storage,
    /// See [`DbError::InvalidKey`].
    InvalidKey,
    /// See [`DbError::InvalidData`].
    InvalidData(Seq<char>),
    /// See [`DbError::TransactionConflict`].
    TransactionConflict(Seq<u8>, u64, u64),
}

impl View for DbError {
    type V = ErrorView;

    open spec fn view(&self) -> ErrorView {
        match *self {
            DbError::Storage(_) => ErrorView::Storage,
            DbError::InvalidKey => ErrorView::InvalidKey,
            DbError::InvalidData(text) => ErrorView::InvalidData(text@),
            DbError::TransactionConflict { entity_id, expected, actual } => ErrorView::TransactionConflict(
                entity_id@,
                expected,
                actual,
            ),
        }
    }
}

impl DeepView for DbError {
    type V = ErrorView;

    open spec fn deep_view(&self) -> ErrorView {
        self@
    }
}

impl DbError {
    /// A copy of the error.
    pub fn duplicate(&self) -> (e: DbError)
        ensures
            e@ == self@,
    {
        match self {
            DbError::Storage(e) => DbError::Storage(clone_failure(e)),
            DbError::InvalidKey => DbError::InvalidKey,
            DbError::InvalidData(text) => DbError::InvalidData(text.clone()),
            DbError::TransactionConflict { entity_id, expected, actual } => DbError::TransactionConflict {
                entity_id: *entity_id,
                expected: *expected,
                actual: *actual,
            },
        }
    }
}

/// Calls `clone` of `sled::Error`. Nothing is claimed of the copy.
#[verifier::external_body]
fn clone_failure(e: &sled::Error) -> (r: sled::Error) {
    e.clone()
}

/// `r` is what is expected, unless the database failed.
pub open spec fn agrees<T: DeepView>(r: Result<T, DbError>, expected: Result<T::V, ErrorView>) -> bool {
    match r {
        Ok(t) => expected == Ok::<T::V, ErrorView>(t.deep_view()),
        Err(e) => e@ is Storage || expected == Err::<T::V, ErrorView>(e@),
    }
}

/// All results, or the first error among them.
pub open spec fn collect<T>(s: Seq<Result<T, ErrorView>>) -> Result<Seq<T>, ErrorView>
    decreases s.len(),
{
    if s.len() == 0 {
        Ok(Seq::empty())
    } else {
        match collect(s.drop_last()) {
            Ok(ts) => match s.last() {
                Ok(t) => Ok(ts.push(t)),
                Err(e) => Err(e),
            },
            Err(e) => Err(e),
        }
    }
}

/// An error among the first results is the outcome.
pub proof fn lemma_collect_fails<T>(s: Seq<Result<T, ErrorView>>, n: int)
    requires
        0 <= n <= s.len(),
        collect(s.take(n)) is Err,
    ensures
        collect(s) == collect(s.take(n)),
    decreases s.len() - n,
{
    if n == s.len() {
        assert(s.take(n) =~= s);
    } else {
        assert(s.take(n + 1).drop_last() =~= s.take(n));
        lemma_collect_fails(s, n + 1);
    }
}

/// One more result.
pub proof fn lemma_collect_step<T>(s: Seq<Result<T, ErrorView>>, n: int)
    requires
        0 <= n < s.len(),
    ensures
        collect(s.take(n + 1)) == match collect(s.take(n)) {
            Ok(ts) => match s[n] {
                Ok(t) => Ok(ts.push(t)),
                Err(e) => Err(e),
            },
            Err(e) => Err(e),
        },
{
    assert(s.take(n + 1).drop_last() =~= s.take(n));
    assert(s.take(n + 1).last() == s[n]);
}

/// Results without an error among them are all there.
pub proof fn lemma_collect_ok<T>(s: Seq<Result<T, ErrorView>>)
    ensures
        collect(s) is Ok <==> forall|i: int| 0 <= i < s.len() ==> (#[trigger] s[i]) is Ok,
        collect(s) matches Ok(ts) ==> ts.len() == s.len() && forall|i: int|
            0 <= i < s.len() ==> #[trigger] s[i] == Ok::<T, ErrorView>(ts[i]),
    decreases s.len(),
{
    if s.len() > 0 {
        let init = s.drop_last();
        lemma_collect_ok(init);
        assert forall|i: int| 0 <= i < init.len() implies init[i] == #[trigger] s[i] by {}
        assert(s.last() == s[s.len() - 1]);
    }
}

} // verus!
