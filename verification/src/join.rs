//! The hash equi-join operator: build a table from the left input, probe it
//! with the right input, and emit the matches in right order.

use vstd::prelude::*;

use crate::common::{CrustyError, OpIterator, PredicateOp};
use crate::hash::{
    key_view, ExtendOption, Field, HashFunction, HashNode, HashScheme, HashTable, KeyV,
};

verus! {

/// How many tuples of a sequence carry a given key.
pub open spec fn tuple_count(l: Seq<(Field, Field)>, k: KeyV) -> nat
    decreases l.len(),
{
    if l.len() == 0 {
        0
    } else {
        tuple_count(l.drop_last(), k) + if key_view(l.last()) == k {
            1nat
        } else {
            0nat
        }
    }
}

/// No key occurs more often than the sequence is long.
proof fn lemma_tuple_count_le(l: Seq<(Field, Field)>, k: KeyV)
    ensures
        tuple_count(l, k) <= l.len(),
    decreases l.len(),
{
    if l.len() > 0 {
        lemma_tuple_count_le(l.drop_last(), k);
    }
}

/// Compares the fields of two tuples using a predicate.
pub struct JoinPredicate {
    pub left_index: usize,
    pub right_index: usize,
    pub op: PredicateOp,
}

impl JoinPredicate {
    pub fn new(op: PredicateOp, left_index: usize, right_index: usize) -> (r: Self)
        ensures
            r.left_index == left_index,
            r.right_index == right_index,
            r.op == op,
    {
        Self { left_index, right_index, op }
    }
}

/// Hash equi-join implementation.
pub struct HashEqJoin {
    pub opened: bool,
    pub left_child: Vec<(Field, Field)>,
    pub right_child: Vec<(Field, Field)>,
    pub join_hash_table: HashTable,
    pub current_node: Option<HashNode>,
    pub current_bucket: Option<Vec<HashNode>>,
}

impl HashEqJoin {
    /// Set up a join of two tuple sequences over a table of the given
    /// geometry.
    pub fn new(
        l_child: Vec<(Field, Field)>,
        r_child: Vec<(Field, Field)>,
        bucket_number: usize,
        bucket_size: usize,
    ) -> (r: Self)
        requires
            bucket_number >= 1,
            bucket_size >= 1,
            bucket_size <= usize::MAX / 9,
        ensures
            !r.opened,
            r.left_child@ == l_child@,
            r.right_child@ == r_child@,
            r.join_hash_table.wf(),
            r.join_hash_table.BUCKET_NUMBER == bucket_number,
            r.join_hash_table.BUCKET_SIZE == bucket_size,
            forall|k: KeyV| #[trigger] r.join_hash_table.count_of(k) == 0,
            forall|k: KeyV| !(#[trigger] r.join_hash_table.has_key(k)),
            r.join_hash_table.total_occupancy() == 0,
            r.current_node is None,
            r.current_bucket is None,
    {
        proof {
            let m = usize::MAX as int;
            assert(bucket_size * 9 <= (m / 9) * 9 <= m) by (nonlinear_arith)
                requires
                    bucket_size <= m / 9,
                    m >= 0,
            ;
        }
        let h = if bucket_size < 4 {
            bucket_size
        } else {
            4
        };
        Self {
            opened: false,
            left_child: l_child,
            right_child: r_child,
            join_hash_table: HashTable::new(
                bucket_size,
                bucket_number,
                HashFunction::StdHash,
                HashScheme::LinearProbe,
                h,
                ExtendOption::ExtendBucketSize,
                9,
                10,
            ),
            current_node: None,
            current_bucket: None,
        }
    }

    /// The equi-join: build a fresh table from the left tuples, each with
    /// count one, then probe it with the right tuples in order. The output
    /// is exactly the subsequence of right tuples whose key occurs in the
    /// left input. Under linear probing and Robin Hood the join succeeds
    /// whenever the left input fits under the table's occupancy bound.
    #[verifier::loop_isolation(false)]
    #[verifier::rlimit(60)]
    pub fn join(&mut self, function: HashFunction, scheme: HashScheme) -> (res: Result<
        Vec<(Field, Field)>,
        CrustyError,
    >)
        requires
            old(self).join_hash_table.wf(),
        ensures
            final(self).left_child == old(self).left_child,
            final(self).right_child == old(self).right_child,
            res matches Ok(out) ==> out@ == old(self).right_child@.filter(
                |t: (Field, Field)| tuple_count(old(self).left_child@, key_view(t)) >= 1,
            ),
            res is Ok ==> final(self).join_hash_table.wf(),
            (scheme is LinearProbe || scheme is RobinHood) && old(self).left_child@.len()
                <= old(self).join_hash_table.threshold() ==> res is Ok,
    {
        let ghost orig = *self;
        let ghost lseq = self.left_child@;
        let ghost rseq = self.right_child@;
        let ghost assured = (scheme is LinearProbe || scheme is RobinHood) && lseq.len()
            <= orig.join_hash_table.threshold();
        let mut res: Vec<(Field, Field)> = Vec::new();
        let b_size = self.join_hash_table.BUCKET_SIZE;
        let b_num = self.join_hash_table.BUCKET_NUMBER;
        let h = if b_size < 4 {
            b_size
        } else {
            4
        };
        let mut table = HashTable::new(
            b_size,
            b_num,
            function,
            scheme,
            h,
            ExtendOption::ExtendBucketSize,
            self.join_hash_table.load_factor_num,
            self.join_hash_table.load_factor_den,
        );
        // build phase: insert every left tuple with count one
        let mut i: usize = 0;
        while i < self.left_child.len()
            invariant
                *self == orig,
                i <= lseq.len(),
                table.wf(),
                table.total_occupancy() <= i,
                table.scheme == scheme,
                table.load_factor_num == orig.join_hash_table.load_factor_num,
                table.load_factor_den == orig.join_hash_table.load_factor_den,
                assured ==> table.BUCKET_SIZE == b_size && table.BUCKET_NUMBER == b_num,
                b_size == orig.join_hash_table.BUCKET_SIZE,
                forall|k: KeyV| #[trigger] table.count_of(k) == tuple_count(
                    lseq.take(i as int),
                    k,
                ),
                forall|k: KeyV| #[trigger] table.has_key(k) == (tuple_count(
                    lseq.take(i as int),
                    k,
                ) >= 1),
            decreases lseq.len() - i,
        {
            let ghost prev = table;
            let t0 = self.left_child[i].0.clone();
            let t1 = self.left_child[i].1.clone();
            let ghost tk = key_view(lseq[i as int]);
            proof {
                if assured {
                    // the table stays below its bound, because the whole
                    // left input fits under it, so this insert cannot fail
                    assert forall|b2: int|
                        0 <= b2 < table.buckets@.len() implies (#[trigger] table.taken_count@[b2])
                        < table.threshold() by {
                        table.lemma_bucket_le_total(b2);
                        assert(table.threshold() == orig.join_hash_table.threshold());
                    }
                    assert(table.below_threshold());
                    table.lemma_threshold_le_size();
                    lemma_tuple_count_le(lseq.take(i as int), key_view((t0, t1)));
                    assert(table.fits_count(key_view((t0, t1)), 1nat));
                }
            }
            match table.insert((t0, t1), 1) {
                Ok(()) => {},
                Err(er) => {
                    proof {
                        if assured {
                            assert(false);
                        }
                    }
                    return Err(er);
                },
            }
            proof {
                assert(lseq.take(i + 1).drop_last() =~= lseq.take(i as int));
                assert(lseq.take(i + 1).last() == lseq[i as int]);
                assert forall|k: KeyV| #[trigger] table.count_of(k) == tuple_count(
                    lseq.take(i + 1),
                    k,
                ) by {
                    assert(table.count_of(k) == prev.count_of(k) + crate::hash::pend(
                        tk,
                        1nat,
                        k,
                    ));
                }
                assert forall|k: KeyV| #[trigger] table.has_key(k) == (tuple_count(
                    lseq.take(i + 1),
                    k,
                ) >= 1) by {
                    assert(table.has_key(k) == (prev.has_key(k) || k == tk));
                }
            }
            i = i + 1;
        }
        proof {
            assert(lseq.take(lseq.len() as int) =~= lseq);
        }
        // probe phase: emit every right tuple whose key the table holds
        let ghost pred = (|t: (Field, Field)| tuple_count(lseq, key_view(t)) >= 1);
        proof {
            reveal(Seq::filter);
            assert(rseq.take(0).filter(pred) =~= Seq::<(Field, Field)>::empty());
        }
        let mut j: usize = 0;
        while j < self.right_child.len()
            invariant
                *self == orig,
                j <= rseq.len(),
                table.wf(),
                forall|k: KeyV| #[trigger] table.count_of(k) == tuple_count(lseq, k),
                forall|k: KeyV| #[trigger] table.has_key(k) == (tuple_count(lseq, k) >= 1),
                res@ == rseq.take(j as int).filter(pred),
            decreases rseq.len() - j,
        {
            let ghost tk = key_view(rseq[j as int]);
            let present = match table.get_value((&self.right_child[j].0, &self.right_child[j].1)) {
                Some(c) => *c >= 1,
                None => false,
            };
            if present {
                let t0 = self.right_child[j].0.clone();
                let t1 = self.right_child[j].1.clone();
                res.push((t0, t1));
            }
            proof {
                reveal(Seq::filter);
                let tj1 = rseq.take(j + 1);
                assert(tj1.drop_last() =~= rseq.take(j as int));
                assert(tj1.last() == rseq[j as int]);
                assert(tj1.filter(pred) == if pred(tj1.last()) {
                    tj1.drop_last().filter(pred).push(tj1.last())
                } else {
                    tj1.drop_last().filter(pred)
                });
                assert(present == pred(rseq[j as int]));
                if present {
                    assert(res@.last() == rseq[j as int]);
                    assert(res@ =~= rseq.take(j as int).filter(pred).push(rseq[j as int]));
                }
                assert(res@ == tj1.filter(pred));
            }
            j = j + 1;
        }
        proof {
            assert(rseq.take(rseq.len() as int) =~= rseq);
        }
        self.join_hash_table = table;
        Ok(res)
    }
}

impl OpIterator for HashEqJoin {
    open spec fn is_open(&self) -> bool {
        self.opened
    }

    fn open(&mut self) -> Result<(), CrustyError> {
        Ok(())
    }

    fn next(&mut self) -> Result<Option<HashNode>, CrustyError> {
        Ok(None)
    }

    fn close(&mut self) -> Result<(), CrustyError> {
        self.right_child = Vec::new();
        self.join_hash_table = HashTable::default();
        self.current_node = None;
        self.current_bucket = None;
        self.opened = false;
        Ok(())
    }

    fn rewind(&mut self) -> Result<(), CrustyError> {
        match self.close() {
            Ok(()) => {},
            Err(er) => {
                return Err(er);
            },
        }
        self.open()
    }
}

} // verus!
