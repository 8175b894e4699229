//! The fee of transactions.
use vstd::prelude::*;

use crate::keys::{Key, Pubkey, Relation};
use crate::outside::fee_of_message;

verus! {

/// An instruction of a message, as far as it matters for the fee.
#[derive(Clone, Debug, PartialEq, Eq)]
pub struct CompiledInstruction {
    /// The position of the program among the keys of the message.
    pub program_id_index: u8,
    pub data: Vec<u8>,
}

/// The message of a transaction, as far as it matters for the fee.
#[derive(Clone, Debug, PartialEq, Eq)]
pub struct Message {
    pub num_required_signatures: u8,
    pub account_keys: Vec<Pubkey>,
    pub instructions: Vec<CompiledInstruction>,
}

/// The address of the program that checks secp256k1 signatures:
/// `KeccakSecp256k11111111111111111111111111111`.
pub const SECP256K1_PROGRAM: [u8; 32] = [
    4, 198, 252, 32, 240, 80, 204, 240, 85, 132, 215, 33, 28, 159, 140, 245, 158, 193, 71, 133,
    187, 22, 106, 30, 40, 48, 232, 18, 32, 0, 0, 0,
];

/// How many signatures an instruction has checked: the program for secp256k1 signatures
/// reads their number from the first byte of its data.
pub open spec fn checked_signatures(
    account_keys: Seq<Pubkey>,
    instruction: CompiledInstruction,
) -> nat {
    let program = instruction.program_id_index as int;
    if program < account_keys.len() && account_keys[program]@ == SECP256K1_PROGRAM@
        && instruction.data.len() > 0 {
        instruction.data[0] as nat
    } else {
        0
    }
}

/// How many signatures some instructions have checked.
pub open spec fn all_checked_signatures(
    account_keys: Seq<Pubkey>,
    instructions: Seq<CompiledInstruction>,
) -> nat
    decreases instructions.len(),
{
    if instructions.len() == 0 {
        0
    } else {
        all_checked_signatures(account_keys, instructions.drop_last()) + checked_signatures(
            account_keys,
            instructions.last(),
        )
    }
}

/// The signatures that a message is charged for.
pub open spec fn signature_count(message: Message) -> nat {
    message.num_required_signatures as nat + all_checked_signatures(
        message.account_keys@,
        message.instructions@,
    )
}

/// The fee of a message.
pub open spec fn message_fee(lamports_per_signature: u64, message: Message) -> nat {
    lamports_per_signature as nat * signature_count(message)
}

/// The fee of several messages.
pub open spec fn total_fee(lamports_per_signature: u64, messages: Seq<Message>) -> nat
    decreases messages.len(),
{
    if messages.len() == 0 {
        0
    } else {
        total_fee(lamports_per_signature, messages.drop_last()) + message_fee(
            lamports_per_signature,
            messages.last(),
        )
    }
}

/// Counts the signatures that a message is charged for.
fn count_signatures(message: &Message) -> (count: u128)
    ensures
        count == signature_count(*message),
        count <= 255 + 255 * message.instructions.len(),
{
    let secp256k1 = Key { bytes: SECP256K1_PROGRAM };
    let mut count: u128 = message.num_required_signatures as u128;
    let mut i: usize = 0;
    assert(message.instructions@.take(0) =~= Seq::<CompiledInstruction>::empty());
    while i < message.instructions.len()
        invariant
            secp256k1@ == SECP256K1_PROGRAM@,
            i <= message.instructions.len(),
            count <= 255 + 255 * i,
            count == message.num_required_signatures + all_checked_signatures(
                message.account_keys@,
                message.instructions@.take(i as int),
            ),
        decreases message.instructions.len() - i,
    {
        assert(message.instructions@.take(i + 1).drop_last() =~= message.instructions@.take(
            i as int,
        ));
        let instruction = &message.instructions[i];
        let program: usize = instruction.program_id_index as usize;
        if program < message.account_keys.len() {
            if let Relation::Same = message.account_keys[program].relation(&secp256k1) {
                if instruction.data.len() > 0 {
                    count = count + instruction.data[0] as u128;
                }
            }
        }
        i += 1;
    }
    assert(message.instructions@.take(i as int) =~= message.instructions@);
    count
}

/// The fee of a message: `None` where it does not fit in 64 bits.
pub fn calculate_fee(lamports_per_signature: u64, message: &Message) -> (r: Option<u64>)
    ensures
        match r {
            Some(fee) => fee == message_fee(lamports_per_signature, *message),
            None => message_fee(lamports_per_signature, *message) > u64::MAX,
        },
{
    let count = count_signatures(message);
    if lamports_per_signature == 0 {
        assert(message_fee(0, *message) == 0) by (nonlinear_arith)
            requires
                message_fee(0, *message) == 0 * signature_count(*message),
        ;
        Some(0)
    } else if count > u64::MAX as u128 {
        assert(message_fee(lamports_per_signature, *message) > u64::MAX) by (nonlinear_arith)
            requires
                message_fee(lamports_per_signature, *message) == lamports_per_signature as nat
                    * signature_count(*message),
                signature_count(*message) > u64::MAX,
                lamports_per_signature > 0,
        ;
        None
    } else {
        match lamports_per_signature.checked_mul(count as u64) {
            Some(_) => Some(fee_of_message(lamports_per_signature, message)),
            None => None,
        }
    }
}

/// The fee of earlier messages is no more than that of all.
proof fn lemma_fee_grows(lamports_per_signature: u64, messages: Seq<Message>, i: int)
    requires
        0 <= i <= messages.len(),
    ensures
        total_fee(lamports_per_signature, messages.take(i)) <= total_fee(
            lamports_per_signature,
            messages,
        ),
    decreases messages.len() - i,
{
    if i < messages.len() {
        lemma_fee_grows(lamports_per_signature, messages, i + 1);
        assert(messages.take(i + 1).drop_last() =~= messages.take(i));
    } else {
        assert(messages.take(i) =~= messages);
    }
}

/// The fee of several messages: `None` where it does not fit in 64 bits.
pub fn required_fee(lamports_per_signature: u64, messages: &Vec<Message>) -> (r: Option<u64>)
    ensures
        match r {
            Some(fee) => fee == total_fee(lamports_per_signature, messages@),
            None => total_fee(lamports_per_signature, messages@) > u64::MAX,
        },
{
    let mut fee: u64 = 0;
    let mut i: usize = 0;
    assert(messages@.take(0) =~= Seq::<Message>::empty());
    while i < messages.len()
        invariant
            i <= messages.len(),
            fee == total_fee(lamports_per_signature, messages@.take(i as int)),
        decreases messages.len() - i,
    {
        proof {
            assert(messages@.take(i + 1).drop_last() =~= messages@.take(i as int));
            lemma_fee_grows(lamports_per_signature, messages@, i + 1);
        }
        let sum = match calculate_fee(lamports_per_signature, &messages[i]) {
            Some(next) => fee.checked_add(next),
            None => None,
        };
        match sum {
            Some(next) => {
                fee = next;
            },
            None => {
                return None;
            },
        }
        i += 1;
    }
    assert(messages@.take(i as int) =~= messages@);
    Some(fee)
}

/// Every signature costs the same: that of each required signer, and those that
/// instructions of the secp256k1 program have checked, as many as the first byte of their
/// data says. An instruction adds to the fee of the message before it.
pub proof fn law_fee_of_one_more_instruction(
    lamports_per_signature: u64,
    message: Message,
    longer: Message,
    instruction: CompiledInstruction,
)
    requires
        longer.num_required_signatures == message.num_required_signatures,
        longer.account_keys@ == message.account_keys@,
        longer.instructions@ == message.instructions@.push(instruction),
    ensures
        ({
            let program = instruction.program_id_index as int;
            let more = message_fee(lamports_per_signature, longer) - message_fee(
                lamports_per_signature,
                message,
            );
            if program < message.account_keys.len() && message.account_keys[program]@
                == SECP256K1_PROGRAM@ && instruction.data.len() > 0 {
                more == lamports_per_signature * instruction.data[0]
            } else {
                more == 0
            }
        }),
{
    assert(longer.instructions@.drop_last() =~= message.instructions@);
    let before = signature_count(message) as int;
    let after = signature_count(longer) as int;
    assert(lamports_per_signature * after - lamports_per_signature * before
        == lamports_per_signature * (after - before)) by (nonlinear_arith);
    assert(lamports_per_signature * 0 == 0) by (nonlinear_arith);
}

/// A message without instructions costs its required signatures.
pub proof fn law_fee_of_required_signatures(lamports_per_signature: u64, message: Message)
    requires
        message.instructions.len() == 0,
    ensures
        message_fee(lamports_per_signature, message) == lamports_per_signature
            * message.num_required_signatures,
{
}

/// The fees of messages add up.
pub proof fn law_fees_add_up(
    lamports_per_signature: u64,
    first: Seq<Message>,
    second: Seq<Message>,
    message: Message,
)
    ensures
        total_fee(lamports_per_signature, first + second) == total_fee(
            lamports_per_signature,
            first,
        ) + total_fee(lamports_per_signature, second),
        total_fee(lamports_per_signature, seq![message]) == message_fee(
            lamports_per_signature,
            message,
        ),
        total_fee(lamports_per_signature, Seq::empty()) == 0,
    decreases second.len(),
{
    assert(seq![message].drop_last() =~= Seq::empty());
    assert(total_fee(lamports_per_signature, Seq::empty()) == 0);
    if second.len() == 0 {
        assert(first + second =~= first);
    } else {
        law_fees_add_up(lamports_per_signature, first, second.drop_last(), message);
        assert((first + second).drop_last() =~= first + second.drop_last());
    }
}

} // verus!
