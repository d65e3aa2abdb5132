//! Host-side preparation of a withdrawal: the value check, the tree the
//! input notes are placed in, the action digest, and the owner's signature.
use crate::action::{block_views, hash_withdraw_action, withdraw_action_message};
use crate::digest::sha256_digest;
use crate::merkle::{build_sparse_tree, is_auth_path, leaf_map, sparse_root, tree_error, DEPTH};
use crate::note::{note_leaf, note_leaf_spec, Note};
use crate::signature::{sign_action, sign_action_outcome, SetupError, SIGNATURE_BYTES};
use crate::transfer::{leaves_of, notes_value};
use rsa::{RsaPrivateKey, RsaPublicKey};
use vstd::prelude::*;

verus! {

/// Everything the withdraw guest is given besides the notes themselves.
pub struct WithdrawSetup {
    pub root: [u8; 32],
    pub paths: Vec<[[u8; 32]; DEPTH]>,
    pub input_leaves: Vec<[u8; 32]>,
    pub nullifiers: Vec<[u8; 32]>,
    pub output_leaf: [u8; 32],
    pub action_hash: [u8; 32],
    pub signature: [u8; SIGNATURE_BYTES],
}

/// Leaf positions paired with leaves, as far as both lists go.
pub open spec fn zip_entries(indices: Seq<u64>, leaves: Seq<[u8; 32]>) -> Seq<(u64, [u8; 32])> {
    let n = if indices.len() <= leaves.len() {
        indices.len()
    } else {
        leaves.len()
    };
    Seq::new(n, |i: int| (indices[i], leaves[i]))
}

/// The error the value check gives, if any: first whether the withdraw amount
/// plus the change fits 128 bits, then whether the inputs add up to it.
pub open spec fn withdraw_balance_error(
    input_notes: Seq<Note>,
    withdraw_amount: u128,
    change_note: Note,
) -> Option<SetupError> {
    if withdraw_amount + change_note.value > u128::MAX {
        Some(SetupError::AmountOverflow)
    } else if notes_value(input_notes) != withdraw_amount + change_note.value {
        Some(SetupError::ValueMismatch)
    } else {
        None
    }
}

/// The value check passes exactly when the withdraw amount plus the change
/// fits 128 bits and the input notes are worth exactly that much.
pub proof fn lemma_withdraw_balance_exact(
    input_notes: Seq<Note>,
    withdraw_amount: u128,
    change_note: Note,
)
    ensures
        withdraw_balance_error(input_notes, withdraw_amount, change_note) is None <==> (
        withdraw_amount + change_note.value <= u128::MAX && notes_value(input_notes)
            == withdraw_amount + change_note.value),
        withdraw_balance_error(input_notes, withdraw_amount, change_note) is Some ==> (
        withdraw_amount + change_note.value > u128::MAX || notes_value(input_notes)
            != withdraw_amount + change_note.value),
{
}

/// Checks that the input notes are worth the withdraw amount plus the change,
/// and returns that total.
pub fn check_withdraw_balance(
    input_notes: &Vec<Note>,
    withdraw_amount: u128,
    change_note: &Note,
) -> (res: Result<u128, SetupError>)
    requires
        notes_value(input_notes@) <= u128::MAX,
    ensures
        match res {
            Ok(total) => withdraw_balance_error(input_notes@, withdraw_amount, *change_note) is None
                && total == notes_value(input_notes@),
            Err(e) => withdraw_balance_error(input_notes@, withdraw_amount, *change_note) == Some(
                e,
            ),
        },
{
    let ghost notes = input_notes@;
    let mut input_sum: u128 = 0;
    let mut i: usize = 0;
    while i < input_notes.len()
        invariant
            notes == input_notes@,
            notes_value(notes) <= u128::MAX,
            i <= notes.len(),
            input_sum as nat == notes_value(notes.take(i as int)),
        decreases notes.len() - i,
    {
        proof {
            assert(notes.take(i + 1).drop_last() =~= notes.take(i as int));
            crate::transfer::lemma_prefix_value(notes, i + 1, notes.len() as int);
            assert(notes.take(notes.len() as int) =~= notes);
        }
        input_sum = input_sum + input_notes[i].value;
        i = i + 1;
    }
    proof {
        assert(notes.take(notes.len() as int) =~= notes);
    }
    let expected_total = match withdraw_amount.checked_add(change_note.value) {
        Some(total) => total,
        None => return Err(SetupError::AmountOverflow),
    };
    if input_sum != expected_total {
        return Err(SetupError::ValueMismatch);
    }
    Ok(input_sum)
}

/// The withdraw action digest for notes placed at `indices` whose leaves are
/// `leaves`: over the root of the tree they form, the leaves, the notes'
/// nullifiers, the amount and the change note's leaf.
pub open spec fn withdraw_digest(
    indices: Seq<u64>,
    leaves: Seq<[u8; 32]>,
    notes: Seq<Note>,
    withdraw_amount: u128,
    change_note: Note,
) -> Seq<u8> {
    sha256_digest(
        withdraw_action_message(
            sparse_root(leaf_map(zip_entries(indices, leaves))),
            block_views(leaves),
            block_views(notes.map_values(|note: Note| note.nullifier)),
            withdraw_amount,
            note_leaf_spec(change_note),
        ),
    )
}

/// Leaves are determined by their bytes.
proof fn lemma_same_views_same_leaves(a: Seq<[u8; 32]>, b: Seq<[u8; 32]>)
    requires
        block_views(a) == block_views(b),
    ensures
        a == b,
{
    assert(a.len() == block_views(a).len());
    assert forall|i: int| 0 <= i < a.len() implies a[i] == b[i] by {
        assert(block_views(a)[i] == block_views(b)[i]);
        assert(a[i]@ == b[i]@);
        assert(a[i] =~= b[i]);
    }
    assert(a =~= b);
}

/// Prepares a withdrawal of `withdraw_amount` from `input_notes` (placed at
/// `input_indices`) with `change_note` as change: checks the values, builds
/// the tree over the input leaves, hashes the withdraw action and signs it.
pub fn prepare_withdraw(
    input_notes: &Vec<Note>,
    input_indices: &Vec<u64>,
    withdraw_amount: u128,
    change_note: &Note,
    private_key: &RsaPrivateKey,
    public_key: &RsaPublicKey,
) -> (res: Result<WithdrawSetup, SetupError>)
    requires
        notes_value(input_notes@) <= u128::MAX,
    ensures
        withdraw_balance_error(input_notes@, withdraw_amount, *change_note) matches Some(e) ==> res
            == Err::<WithdrawSetup, SetupError>(e),
        withdraw_balance_error(input_notes@, withdraw_amount, *change_note) is None ==> forall|
            leaves: Seq<[u8; 32]>,
        |
            block_views(leaves) == leaves_of(input_notes@) ==> (#[trigger] tree_error(
                zip_entries(input_indices@, leaves),
            ) matches Some(e) ==> res == Err::<WithdrawSetup, SetupError>(SetupError::Tree(e))),
        res matches Err(e) ==> (e == SetupError::ValueMismatch || e == SetupError::AmountOverflow)
            ==> withdraw_balance_error(input_notes@, withdraw_amount, *change_note) == Some(e),
        withdraw_balance_error(input_notes@, withdraw_amount, *change_note) is None ==> forall|
            leaves: Seq<[u8; 32]>,
        |
            block_views(leaves) == leaves_of(input_notes@) && #[trigger] tree_error(
                zip_entries(input_indices@, leaves),
            ) is None ==> match res {
                Ok(setup) => sign_action_outcome(
                    *private_key,
                    *public_key,
                    withdraw_digest(
                        input_indices@,
                        leaves,
                        input_notes@,
                        withdraw_amount,
                        *change_note,
                    ),
                ) == Ok::<Seq<u8>, SetupError>(setup.signature@),
                Err(e) => sign_action_outcome(
                    *private_key,
                    *public_key,
                    withdraw_digest(
                        input_indices@,
                        leaves,
                        input_notes@,
                        withdraw_amount,
                        *change_note,
                    ),
                ) == Err::<Seq<u8>, SetupError>(e),
            },
        res matches Err(SetupError::Tree(e)) ==> withdraw_balance_error(
            input_notes@,
            withdraw_amount,
            *change_note,
        ) is None && exists|leaves: Seq<[u8; 32]>|
            block_views(leaves) == leaves_of(input_notes@) && #[trigger] tree_error(
                zip_entries(input_indices@, leaves),
            ) == Some(e),
        match res {
            Ok(setup) => {
                let entries = zip_entries(input_indices@, setup.input_leaves@);
                let leaves = leaf_map(entries);
                &&& withdraw_balance_error(input_notes@, withdraw_amount, *change_note) is None
                &&& block_views(setup.input_leaves@) == leaves_of(input_notes@)
                &&& setup.nullifiers@ == input_notes@.map_values(|note: Note| note.nullifier)
                &&& setup.output_leaf@ == note_leaf_spec(*change_note)
                &&& tree_error(entries) is None
                &&& setup.root@ == sparse_root(leaves)
                &&& setup.paths@.len() == entries.len()
                &&& forall|i: int|
                    0 <= i < entries.len() ==> is_auth_path(
                        leaves,
                        (#[trigger] entries[i]).0 as int,
                        setup.paths@[i]@,
                    )
                &&& setup.action_hash@ == sha256_digest(
                    withdraw_action_message(
                        setup.root@,
                        block_views(setup.input_leaves@),
                        block_views(setup.nullifiers@),
                        withdraw_amount,
                        setup.output_leaf@,
                    ),
                )
                &&& sign_action_outcome(*private_key, *public_key, setup.action_hash@) == Ok::<
                    Seq<u8>,
                    SetupError,
                >(setup.signature@)
            },
            Err(_) => true,
        },
{
    match check_withdraw_balance(input_notes, withdraw_amount, change_note) {
        Ok(_) => {},
        Err(e) => return Err(e),
    }
    let ghost notes = input_notes@;
    let n = input_notes.len();
    let mut input_leaves: Vec<[u8; 32]> = Vec::new();
    let mut nullifiers: Vec<[u8; 32]> = Vec::new();
    let mut i: usize = 0;
    while i < n
        invariant
            notes == input_notes@,
            n == notes.len(),
            i <= n,
            input_leaves@.len() == i,
            block_views(input_leaves@) == leaves_of(notes.take(i as int)),
            nullifiers@ == notes.map_values(|note: Note| note.nullifier).take(i as int),
        decreases n - i,
    {
        let ghost old_leaves = input_leaves@;
        input_leaves.push(note_leaf(&input_notes[i]));
        nullifiers.push(input_notes[i].nullifier);
        proof {
            assert forall|j: int| 0 <= j < i + 1 implies #[trigger] block_views(input_leaves@)[j]
                == leaves_of(notes.take(i + 1))[j] by {
                if j < i {
                    assert(block_views(old_leaves)[j] == leaves_of(notes.take(i as int))[j]);
                }
            }
            assert(block_views(input_leaves@) =~= leaves_of(notes.take(i + 1)));
            assert(nullifiers@ =~= notes.map_values(|note: Note| note.nullifier).take(i + 1));
        }
        i = i + 1;
    }
    proof {
        assert(notes.take(n as int) =~= notes);
        assert(notes.map_values(|note: Note| note.nullifier).take(n as int) =~= notes.map_values(
            |note: Note| note.nullifier,
        ));
    }
    let output_leaf = note_leaf(change_note);

    let count = if input_indices.len() <= input_leaves.len() {
        input_indices.len()
    } else {
        input_leaves.len()
    };
    let ghost entries = zip_entries(input_indices@, input_leaves@);
    let mut indexed_leaves: Vec<(u64, [u8; 32])> = Vec::new();
    let mut j: usize = 0;
    while j < count
        invariant
            entries == zip_entries(input_indices@, input_leaves@),
            count == entries.len(),
            count <= input_indices@.len(),
            count <= input_leaves@.len(),
            j <= count,
            indexed_leaves@ == entries.take(j as int),
        decreases count - j,
    {
        indexed_leaves.push((input_indices[j], input_leaves[j]));
        proof {
            assert(indexed_leaves@ =~= entries.take(j + 1));
        }
        j = j + 1;
    }
    proof {
        assert(entries.take(count as int) =~= entries);
    }
    proof {
        assert forall|leaves: Seq<[u8; 32]>|
            block_views(leaves) == leaves_of(input_notes@) implies zip_entries(input_indices@, leaves)
            == entries by {
            lemma_same_views_same_leaves(leaves, input_leaves@);
        }
    }
    let (root, paths) = match build_sparse_tree(indexed_leaves.as_slice()) {
        Ok(tree) => tree,
        Err(e) => {
            return Err(SetupError::Tree(e));
        },
    };
    let action_hash = hash_withdraw_action(
        &root,
        input_leaves.as_slice(),
        nullifiers.as_slice(),
        withdraw_amount,
        &output_leaf,
    );
    proof {
        assert forall|leaves: Seq<[u8; 32]>|
            block_views(leaves) == leaves_of(input_notes@) implies withdraw_digest(
            input_indices@,
            leaves,
            input_notes@,
            withdraw_amount,
            *change_note,
        ) == action_hash@ by {
            lemma_same_views_same_leaves(leaves, input_leaves@);
        }
    }
    let signature = match sign_action(private_key, public_key, &action_hash) {
        Ok(signature) => signature,
        Err(e) => return Err(e),
    };
    Ok(WithdrawSetup { root, paths, input_leaves, nullifiers, output_leaf, action_hash, signature })
}

} // verus!
