//! The transfer statement that the transfer guest proves: notes of one owner
//! in the tree are spent, as signed by that owner, into new notes of the same
//! total value; the journal publishes the root, the nullifiers and the new leaves.
use crate::action::{block_views, hash_transfer_action, transfer_action_message};
use crate::bytes::same_bytes;
use crate::digest::sha256_digest;
use crate::journal::{encode_transfer_journal, scale_blocks, transfer_journal_bytes};
use crate::merkle::{compute_root, path_root, DEPTH};
use crate::note::{note_leaf, note_leaf_spec, Note};
use crate::signature::{owner_signature_accepted, verify_owner_signature, SIGNATURE_BYTES};
use vstd::prelude::*;

verus! {

/// Most notes a transfer spends.
pub const MAX_INPUT_NOTES: usize = 8;

/// Most notes a transfer creates.
pub const MAX_OUTPUT_NOTES: usize = 8;

/// Why a transfer is refused.
#[derive(Clone, Copy, Debug, PartialEq, Eq, Structural)]
pub enum TransferError {
    /// No input or no output note, or more than 8 of either.
    InvalidNoteCount,
    /// An input note has another owner than the first one.
    OwnerMismatch,
    /// An input note's Merkle path does not lead to the root.
    RootMismatch,
    /// The input values add up to more than 128 bits hold.
    InputValueOverflow,
    /// Two input notes have the same nullifier.
    DuplicateNullifier,
    /// The output values add up to more than 128 bits hold.
    OutputValueOverflow,
    /// Inputs and outputs differ in total value.
    ValueMismatch,
    /// The owner's signature over the transfer action does not verify.
    InvalidSignature,
}

/// A note being spent, with its leaf position and authentication path.
#[derive(Clone, Copy)]
pub struct TransferInput {
    pub leaf_index: u64,
    pub note: Note,
    pub merkle_path: [[u8; 32]; DEPTH],
}

/// The total value of `notes`.
pub open spec fn notes_value(notes: Seq<Note>) -> nat
    decreases notes.len(),
{
    if notes.len() == 0 {
        0
    } else {
        notes_value(notes.drop_last()) + notes.last().value as nat
    }
}

/// The notes that `inputs` spend.
pub open spec fn input_notes(inputs: Seq<TransferInput>) -> Seq<Note> {
    inputs.map_values(|input: TransferInput| input.note)
}

/// The nullifiers of the notes that `inputs` spend.
pub open spec fn input_nullifiers(inputs: Seq<TransferInput>) -> Seq<[u8; 32]> {
    inputs.map_values(|input: TransferInput| input.note.nullifier)
}

/// The leaf commitments of `notes`.
pub open spec fn leaves_of(notes: Seq<Note>) -> Seq<Seq<u8>> {
    notes.map_values(|note: Note| note_leaf_spec(note))
}

/// The root that an input's path leads to from its note's leaf.
pub open spec fn input_root(input: TransferInput) -> Seq<u8> {
    path_root(note_leaf_spec(input.note), input.leaf_index as int, input.merkle_path@, DEPTH as nat)
}

/// Between 1 and 8 inputs, and between 1 and 8 outputs.
pub open spec fn note_counts_ok(input_count: int, output_count: int) -> bool {
    &&& 0 < input_count <= MAX_INPUT_NOTES
    &&& 0 < output_count <= MAX_OUTPUT_NOTES
}

/// Input `k` has the first input's owner, lies under `root`, and the values of
/// inputs `0..=k` fit 128 bits.
pub open spec fn input_accepted(inputs: Seq<TransferInput>, root: Seq<u8>, k: int) -> bool {
    &&& inputs[k].note.owner_modulus@ == inputs[0].note.owner_modulus@
    &&& input_root(inputs[k]) == root
    &&& notes_value(input_notes(inputs).take(k + 1)) <= u128::MAX
}

/// Every input before position `j` is accepted.
pub open spec fn inputs_accepted_before(inputs: Seq<TransferInput>, root: Seq<u8>, j: int) -> bool {
    forall|k: int| 0 <= k < j ==> #[trigger] input_accepted(inputs, root, k)
}

/// No nullifier occurs twice.
pub open spec fn distinct_nullifiers(nullifiers: Seq<[u8; 32]>) -> bool {
    forall|i: int, j: int|
        0 <= i < j < nullifiers.len() ==> #[trigger] nullifiers[i]@ != #[trigger] nullifiers[j]@
}

/// The digest the owner signs for this transfer.
pub open spec fn transfer_action_digest(
    root: [u8; 32],
    inputs: Seq<TransferInput>,
    outputs: Seq<Note>,
) -> Seq<u8> {
    sha256_digest(
        transfer_action_message(
            root@,
            leaves_of(input_notes(inputs)),
            block_views(input_nullifiers(inputs)),
            leaves_of(outputs),
        ),
    )
}

/// The first input that is not accepted, and what is wrong with it.
pub open spec fn first_input_error(inputs: Seq<TransferInput>, root: Seq<u8>) -> TransferError {
    let j = choose|j: int|
        0 <= j < inputs.len() && #[trigger] inputs_accepted_before(inputs, root, j)
            && !input_accepted(inputs, root, j);
    if inputs[j].note.owner_modulus@ != inputs[0].note.owner_modulus@ {
        TransferError::OwnerMismatch
    } else if input_root(inputs[j]) != root {
        TransferError::RootMismatch
    } else {
        TransferError::InputValueOverflow
    }
}

/// What the transfer statement yields: its checks in order, the first that
/// fails deciding the error, and otherwise the journal.
pub open spec fn transfer_outcome(
    root: [u8; 32],
    inputs: Seq<TransferInput>,
    outputs: Seq<Note>,
    signature: Seq<u8>,
) -> Result<Seq<u8>, TransferError> {
    if !note_counts_ok(inputs.len() as int, outputs.len() as int) {
        Err(TransferError::InvalidNoteCount)
    } else if !inputs_accepted_before(inputs, root@, inputs.len() as int) {
        Err(first_input_error(inputs, root@))
    } else if !distinct_nullifiers(input_nullifiers(inputs)) {
        Err(TransferError::DuplicateNullifier)
    } else if notes_value(outputs) > u128::MAX {
        Err(TransferError::OutputValueOverflow)
    } else if notes_value(input_notes(inputs)) != notes_value(outputs) {
        Err(TransferError::ValueMismatch)
    } else if !owner_signature_accepted(
        inputs[0].note.owner_modulus@,
        transfer_action_digest(root, inputs, outputs),
        signature,
    ) {
        Err(TransferError::InvalidSignature)
    } else {
        Ok(
            transfer_journal_bytes(
                root@,
                block_views(input_nullifiers(inputs)),
                leaves_of(outputs),
            ),
        )
    }
}

proof fn lemma_first_input_error(inputs: Seq<TransferInput>, root: Seq<u8>, j: int)
    requires
        0 <= j < inputs.len(),
        inputs_accepted_before(inputs, root, j),
        !input_accepted(inputs, root, j),
    ensures
        !inputs_accepted_before(inputs, root, inputs.len() as int),
        first_input_error(inputs, root) == (if inputs[j].note.owner_modulus@
            != inputs[0].note.owner_modulus@ {
            TransferError::OwnerMismatch
        } else if input_root(inputs[j]) != root {
            TransferError::RootMismatch
        } else {
            TransferError::InputValueOverflow
        }),
{
    let j2 = choose|j2: int|
        0 <= j2 < inputs.len() && #[trigger] inputs_accepted_before(inputs, root, j2)
            && !input_accepted(inputs, root, j2);
    assert(0 <= j2 < inputs.len() && inputs_accepted_before(inputs, root, j2) && !input_accepted(
        inputs,
        root,
        j2,
    ));
    if j2 < j {
        assert(input_accepted(inputs, root, j2));
    }
    if j < j2 {
        assert(input_accepted(inputs, root, j));
    }
    if inputs_accepted_before(inputs, root, inputs.len() as int) {
        assert(input_accepted(inputs, root, j));
    }
}

/// Adding notes never lowers the total: a prefix is worth at most the whole.
pub proof fn lemma_prefix_value(notes: Seq<Note>, a: int, b: int)
    requires
        0 <= a <= b <= notes.len(),
    ensures
        notes_value(notes.take(a)) <= notes_value(notes.take(b)),
    decreases b - a,
{
    if a < b {
        lemma_prefix_value(notes, a, b - 1);
        assert(notes.take(b).drop_last() =~= notes.take(b - 1));
    }
}

/// `Ok` exactly when there are 1 to 8 input notes and 1 to 8 output notes;
/// otherwise `InvalidNoteCount`.
pub fn check_note_counts(input_count: u32, output_count: u32) -> (res: Result<(), TransferError>)
    ensures
        res is Ok <==> note_counts_ok(input_count as int, output_count as int),
        res matches Err(e) ==> e == TransferError::InvalidNoteCount,
{
    if input_count > 0 && output_count > 0 && input_count as usize <= MAX_INPUT_NOTES
        && output_count as usize <= MAX_OUTPUT_NOTES {
        Ok(())
    } else {
        Err(TransferError::InvalidNoteCount)
    }
}

/// `Ok` exactly when no nullifier occurs twice; otherwise `DuplicateNullifier`.
pub fn assert_unique_nullifiers(nullifiers: &[[u8; 32]]) -> (res: Result<(), TransferError>)
    ensures
        res is Ok <==> distinct_nullifiers(nullifiers@),
        res matches Err(e) ==> e == TransferError::DuplicateNullifier,
{
    let n = nullifiers.len();
    let mut i: usize = 0;
    while i < n
        invariant
            n == nullifiers@.len(),
            i <= n,
            forall|a: int, b: int|
                0 <= a < b < n && a < i ==> #[trigger] nullifiers@[a]@ != #[trigger] nullifiers@[b]@,
        decreases n - i,
    {
        let mut j: usize = i + 1;
        while j < n
            invariant
                n == nullifiers@.len(),
                i < n,
                i + 1 <= j <= n,
                forall|a: int, b: int|
                    0 <= a < b < n && a < i ==> #[trigger] nullifiers@[a]@ != #[trigger] nullifiers@[b]@,
                forall|b: int| i < b < j ==> nullifiers@[i as int]@ != #[trigger] nullifiers@[b]@,
            decreases n - j,
        {
            if same_bytes(&nullifiers[i], &nullifiers[j]) {
                return Err(TransferError::DuplicateNullifier);
            }
            j = j + 1;
        }
        i = i + 1;
    }
    Ok(())
}

/// The transfer statement: checks the note counts, that every input note has
/// the first one's owner and lies under `root`, that the input values fit 128
/// bits, that the nullifiers are distinct, that the output values fit 128 bits
/// and equal the inputs' total, and that the owner signed the transfer action;
/// then returns the journal. The first check that fails gives the error.
pub fn process_transfer(
    root: [u8; 32],
    inputs: &Vec<TransferInput>,
    outputs: &Vec<Note>,
    signature: &[u8; SIGNATURE_BYTES],
) -> (res: Result<Vec<u8>, TransferError>)
    ensures
        match res {
            Ok(journal) => transfer_outcome(root, inputs@, outputs@, signature@) == Ok::<
                Seq<u8>,
                TransferError,
            >(journal@),
            Err(e) => transfer_outcome(root, inputs@, outputs@, signature@) == Err::<
                Seq<u8>,
                TransferError,
            >(e),
        },
{
    let ghost ins = inputs@;
    let ghost notes = input_notes(inputs@);
    let n = inputs.len();
    let m = outputs.len();
    if n == 0 || m == 0 || n > MAX_INPUT_NOTES || m > MAX_OUTPUT_NOTES {
        return Err(TransferError::InvalidNoteCount);
    }
    let owner_modulus = inputs[0].note.owner_modulus;

    let mut input_sum: u128 = 0;
    let mut input_leaves: Vec<[u8; 32]> = Vec::new();
    let mut nullifiers: Vec<[u8; 32]> = Vec::new();
    let mut i: usize = 0;
    while i < n
        invariant
            ins == inputs@,
            notes == input_notes(ins),
            n == ins.len(),
            0 < n <= MAX_INPUT_NOTES,
            m == outputs@.len(),
            0 < m <= MAX_OUTPUT_NOTES,
            owner_modulus == ins[0].note.owner_modulus,
            i <= n,
            inputs_accepted_before(ins, root@, i as int),
            input_sum as nat == notes_value(notes.take(i as int)),
            input_leaves@.len() == i,
            block_views(input_leaves@) == leaves_of(notes.take(i as int)),
            nullifiers@ == input_nullifiers(ins).take(i as int),
        decreases n - i,
    {
        let input = &inputs[i];
        if !same_bytes(&input.note.owner_modulus, &owner_modulus) {
            proof {
                lemma_first_input_error(ins, root@, i as int);
            }
            return Err(TransferError::OwnerMismatch);
        }
        let leaf = note_leaf(&input.note);
        let computed_root = compute_root(leaf, input.leaf_index, &input.merkle_path);
        if !same_bytes(&computed_root, &root) {
            proof {
                lemma_first_input_error(ins, root@, i as int);
            }
            return Err(TransferError::RootMismatch);
        }
        proof {
            assert(notes.take(i + 1).drop_last() =~= notes.take(i as int));
        }
        input_sum = match input_sum.checked_add(input.note.value) {
            Some(sum) => sum,
            None => {
                proof {
                    lemma_first_input_error(ins, root@, i as int);
                }
                return Err(TransferError::InputValueOverflow);
            },
        };
        let ghost old_leaves = input_leaves@;
        input_leaves.push(leaf);
        nullifiers.push(input.note.nullifier);
        proof {
            assert(input_accepted(ins, root@, i as int));
            assert forall|j: int| 0 <= j < i + 1 implies #[trigger] block_views(input_leaves@)[j]
                == leaves_of(notes.take(i + 1))[j] by {
                if j < i {
                    assert(block_views(old_leaves)[j] == leaves_of(notes.take(i as int))[j]);
                }
            }
            assert(block_views(input_leaves@) =~= leaves_of(notes.take(i + 1)));
            assert(nullifiers@ =~= input_nullifiers(ins).take(i + 1));
        }
        i = i + 1;
    }
    proof {
        assert(notes.take(n as int) =~= notes);
        assert(input_nullifiers(ins).take(n as int) =~= input_nullifiers(ins));
    }

    if assert_unique_nullifiers(nullifiers.as_slice()).is_err() {
        return Err(TransferError::DuplicateNullifier);
    }
    assert(distinct_nullifiers(input_nullifiers(ins)));

    let ghost outs = outputs@;
    let mut output_sum: u128 = 0;
    let mut output_leaves: Vec<[u8; 32]> = Vec::new();
    let mut k: usize = 0;
    while k < m
        invariant
            outs == outputs@,
            m == outs.len(),
            k <= m,
            output_sum as nat == notes_value(outs.take(k as int)),
            output_leaves@.len() == k,
            block_views(output_leaves@) == leaves_of(outs.take(k as int)),
            ins == inputs@,
            note_counts_ok(ins.len() as int, m as int),
            inputs_accepted_before(ins, root@, ins.len() as int),
            distinct_nullifiers(input_nullifiers(ins)),
        decreases m - k,
    {
        let note = &outputs[k];
        proof {
            assert(outs.take(k + 1).drop_last() =~= outs.take(k as int));
        }
        output_sum = match output_sum.checked_add(note.value) {
            Some(sum) => sum,
            None => {
                proof {
                    lemma_prefix_value(outs, k + 1, m as int);
                    assert(outs.take(m as int) =~= outs);
                    assert(notes_value(outs) > u128::MAX);
                    assert(inputs_accepted_before(ins, root@, ins.len() as int));
                }
                return Err(TransferError::OutputValueOverflow);
            },
        };
        let ghost old_leaves = output_leaves@;
        output_leaves.push(note_leaf(note));
        proof {
            assert forall|j: int| 0 <= j < k + 1 implies #[trigger] block_views(output_leaves@)[j]
                == leaves_of(outs.take(k + 1))[j] by {
                if j < k {
                    assert(block_views(old_leaves)[j] == leaves_of(outs.take(k as int))[j]);
                }
            }
            assert(block_views(output_leaves@) =~= leaves_of(outs.take(k + 1)));
        }
        k = k + 1;
    }
    proof {
        assert(outs.take(m as int) =~= outs);
    }

    if input_sum != output_sum {
        return Err(TransferError::ValueMismatch);
    }

    let action_hash = hash_transfer_action(
        &root,
        input_leaves.as_slice(),
        nullifiers.as_slice(),
        output_leaves.as_slice(),
    );
    if verify_owner_signature(owner_modulus, &action_hash, signature).is_err() {
        return Err(TransferError::InvalidSignature);
    }
    Ok(encode_transfer_journal(&root, &nullifiers, &output_leaves))
}

/// What an accepted transfer guarantees: 1 to 8 inputs and outputs, every
/// input note owned by the first input's owner and lying under the root,
/// distinct nullifiers, outputs worth exactly what the inputs are worth, and
/// the owner's signature over the transfer action.
pub proof fn lemma_accepted_transfer(
    root: [u8; 32],
    inputs: Seq<TransferInput>,
    outputs: Seq<Note>,
    signature: Seq<u8>,
)
    requires
        transfer_outcome(root, inputs, outputs, signature) is Ok,
    ensures
        note_counts_ok(inputs.len() as int, outputs.len() as int),
        forall|k: int|
            0 <= k < inputs.len() ==> (#[trigger] inputs[k]).note.owner_modulus@
                == inputs[0].note.owner_modulus@ && input_root(inputs[k]) == root@,
        distinct_nullifiers(input_nullifiers(inputs)),
        forall|i: int, j: int|
            0 <= i < j < inputs.len() ==> (#[trigger] inputs[i]).note.nullifier != (
            #[trigger] inputs[j]).note.nullifier,
        notes_value(input_notes(inputs)) == notes_value(outputs),
        notes_value(outputs) <= u128::MAX,
        owner_signature_accepted(
            inputs[0].note.owner_modulus@,
            transfer_action_digest(root, inputs, outputs),
            signature,
        ),
{
    assert forall|k: int| 0 <= k < inputs.len() implies (#[trigger] inputs[k]).note.owner_modulus@
        == inputs[0].note.owner_modulus@ && input_root(inputs[k]) == root@ by {
        assert(input_accepted(inputs, root@, k));
    }
    lemma_unique_nullifiers_pairwise(input_nullifiers(inputs));
    assert forall|i: int, j: int| 0 <= i < j < inputs.len() implies (#[trigger] inputs[i]).note.nullifier
        != (#[trigger] inputs[j]).note.nullifier by {
        assert(input_nullifiers(inputs)[i] == inputs[i].note.nullifier);
        assert(input_nullifiers(inputs)[j] == inputs[j].note.nullifier);
    }
}

/// Nullifiers pass the uniqueness check exactly when every two positions
/// hold different nullifiers.
pub proof fn lemma_unique_nullifiers_pairwise(nullifiers: Seq<[u8; 32]>)
    ensures
        distinct_nullifiers(nullifiers) <==> forall|i: int, j: int|
            0 <= i < j < nullifiers.len() ==> #[trigger] nullifiers[i] != #[trigger] nullifiers[j],
{
    if distinct_nullifiers(nullifiers) {
        assert forall|i: int, j: int| 0 <= i < j < nullifiers.len() implies #[trigger] nullifiers[i]
            != #[trigger] nullifiers[j] by {
            assert(nullifiers[i]@ != nullifiers[j]@);
        }
    }
    if forall|i: int, j: int|
        0 <= i < j < nullifiers.len() ==> #[trigger] nullifiers[i] != #[trigger] nullifiers[j] {
        assert forall|i: int, j: int| 0 <= i < j < nullifiers.len() implies #[trigger] nullifiers[i]@
            != #[trigger] nullifiers[j]@ by {
            if nullifiers[i]@ == nullifiers[j]@ {
                assert(nullifiers[i] =~= nullifiers[j]);
            }
        }
    }
}

/// Completeness of the transfer statement: 1 to 8 inputs and outputs, every
/// input of the first input's owner with a path leading to the root, pairwise
/// different nullifiers, totals that fit 128 bits and are equal, and the
/// owner's signature over the transfer action, give `Ok` with the journal:
/// the root, the SCALE list of the nullifiers, the SCALE list of the output
/// leaves.
pub proof fn lemma_valid_transfer_is_accepted(
    root: [u8; 32],
    inputs: Seq<TransferInput>,
    outputs: Seq<Note>,
    signature: Seq<u8>,
)
    requires
        1 <= inputs.len() <= 8,
        1 <= outputs.len() <= 8,
        forall|k: int|
            0 <= k < inputs.len() ==> (#[trigger] inputs[k]).note.owner_modulus
                == inputs[0].note.owner_modulus,
        forall|k: int|
            0 <= k < inputs.len() ==> path_root(
                note_leaf_spec((#[trigger] inputs[k]).note),
                inputs[k].leaf_index as int,
                inputs[k].merkle_path@,
                DEPTH as nat,
            ) == root@,
        forall|i: int, j: int|
            0 <= i < j < inputs.len() ==> (#[trigger] inputs[i]).note.nullifier != (
            #[trigger] inputs[j]).note.nullifier,
        notes_value(input_notes(inputs)) <= u128::MAX,
        notes_value(outputs) <= u128::MAX,
        notes_value(input_notes(inputs)) == notes_value(outputs),
        owner_signature_accepted(
            inputs[0].note.owner_modulus@,
            transfer_action_digest(root, inputs, outputs),
            signature,
        ),
    ensures
        transfer_outcome(root, inputs, outputs, signature) == Ok::<Seq<u8>, TransferError>(
            root@ + scale_blocks(block_views(input_nullifiers(inputs))) + scale_blocks(
                leaves_of(outputs),
            ),
        ),
{
    let notes = input_notes(inputs);
    let n = inputs.len() as int;
    assert(notes.take(n) =~= notes);
    assert forall|k: int| 0 <= k < n implies #[trigger] input_accepted(inputs, root@, k) by {
        lemma_prefix_value(notes, k + 1, n);
        assert(inputs[k].note.owner_modulus == inputs[0].note.owner_modulus);
    }
    lemma_unique_nullifiers_pairwise(input_nullifiers(inputs));
    assert forall|i: int, j: int| 0 <= i < j < n implies #[trigger] input_nullifiers(inputs)[i]
        != #[trigger] input_nullifiers(inputs)[j] by {
        assert(inputs[i].note.nullifier != inputs[j].note.nullifier);
    }
}

} // verus!
