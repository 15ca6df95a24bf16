//! Short-integer blocks and their scalar bitwise operations.
//!
//! A block carries a small payload below `message_modulus * carry_modulus`.
//! Every operation of this module is a table look-up: the table lists, for each
//! payload a block may hold, the payload it is replaced with.  The blocks
//! handled here carry their payload in the clear, which is the level at which
//! the tables are defined.
use vstd::arithmetic::div_mod::lemma_small_mod;
use vstd::prelude::*;

verus! {

/// Number of message values of a block.
#[derive(Clone, Copy, Debug)]
pub struct MessageModulus(pub u64);

/// Number of carry values of a block.
#[derive(Clone, Copy, Debug)]
pub struct CarryModulus(pub u64);

/// The three scalar bitwise operations.
pub enum BitOp {
    And,
    Xor,
    Or,
}

/// What a scalar bitwise operation yields on a payload `x`: only the message
/// part `x % modulus` of the payload takes part, and the outcome is a message
/// again, that is, it is reduced modulo `modulus`.  (The conjunction is never
/// above its operand `x % modulus`, so reducing it would change nothing.)
pub open spec fn scalar_bit_op(op: BitOp, x: u64, modulus: u64, rhs: u8) -> u64 {
    match op {
        BitOp::And => (x % modulus) & (rhs as u64),
        BitOp::Xor => ((x % modulus) ^ (rhs as u64)) % modulus,
        BitOp::Or => ((x % modulus) | (rhs as u64)) % modulus,
    }
}

/// Is `entry` what `f` yields on `arg`, reduced modulo `modulus`?
pub open spec fn yields_reduced<F: Fn(u64) -> u64>(f: F, arg: u64, modulus: u64, entry: u64) -> bool {
    exists|y: u64| call_ensures(f, (arg,), y) && entry == y % modulus
}

/// Every outcome of a scalar bitwise operation is a message.
pub proof fn lemma_bit_op_is_message(op: BitOp, x: u64, modulus: u64, rhs: u8)
    requires
        modulus > 0,
    ensures
        scalar_bit_op(op, x, modulus, rhs) < modulus,
{
    let a = x % modulus;
    let r = rhs as u64;
    assert(a & r <= a) by (bit_vector);
}

/// A short-integer block.
#[derive(Debug)]
pub struct Ciphertext {
    pub payload: u64,
    /// Largest payload the block may hold after the operations applied so far.
    pub degree: u64,
    pub message_modulus: MessageModulus,
    pub carry_modulus: CarryModulus,
}

impl Clone for Ciphertext {
    fn clone(&self) -> (res: Self)
        ensures
            res == *self,
    {
        Ciphertext {
            payload: self.payload,
            degree: self.degree,
            message_modulus: self.message_modulus,
            carry_modulus: self.carry_modulus,
        }
    }
}

/// A look-up table: `values[x]` replaces the payload `x`.
#[derive(Debug)]
pub struct LookupTable {
    pub values: Vec<u64>,
    /// The largest entry of `values`.
    pub degree: u64,
}

impl LookupTable {
    /// `degree` is the maximum of the entries.
    pub open spec fn degree_is_max(&self) -> bool {
        &&& forall|x: int| 0 <= x < self.values@.len() ==> #[trigger] self.values@[x] <= self.degree
        &&& exists|x: int| 0 <= x < self.values@.len() && #[trigger] self.values@[x] == self.degree
    }
}

/// The public parameters under which blocks are processed.
#[derive(Clone, Copy, Debug)]
pub struct ServerKey {
    pub message_modulus: MessageModulus,
    pub carry_modulus: CarryModulus,
}

impl ServerKey {
    /// Number of payloads a block can hold.
    pub open spec fn modulus_sup(&self) -> int {
        self.message_modulus.0 * self.carry_modulus.0
    }

    /// Both moduli are positive and a table over all payloads fits in memory.
    pub open spec fn wf(&self) -> bool {
        &&& self.message_modulus.0 > 0
        &&& self.carry_modulus.0 > 0
        &&& self.modulus_sup() <= usize::MAX
    }

    /// Tabulates `f` over every payload of a block.
    pub fn generate_lookup_table<F: Fn(u64) -> u64>(&self, f: F) -> (lut: LookupTable)
        requires
            self.wf(),
            forall|x: u64| x < self.modulus_sup() ==> call_requires(f, (x,)),
        ensures
            lut.values@.len() == self.modulus_sup(),
            forall|x: int|
                0 <= x < self.modulus_sup() ==> call_ensures(
                    f,
                    (x as u64,),
                    #[trigger] lut.values@[x],
                ),
            lut.degree_is_max(),
    {
        proof {
            assert(self.modulus_sup() >= 1) by (nonlinear_arith)
                requires
                    self.message_modulus.0 >= 1,
                    self.carry_modulus.0 >= 1,
                    self.modulus_sup() == self.message_modulus.0 * self.carry_modulus.0,
            ;
        }
        let size: u64 = self.message_modulus.0 * self.carry_modulus.0;
        let mut values: Vec<u64> = Vec::new();
        let first: u64 = f(0);
        values.push(first);
        let mut degree: u64 = first;
        let ghost mut top: int = 0;
        let mut x: u64 = 1;
        while x < size
            invariant
                1 <= x <= size,
                size == self.modulus_sup(),
                values@.len() == x,
                forall|i: u64| i < self.modulus_sup() ==> call_requires(f, (i,)),
                forall|i: int| 0 <= i < x ==> call_ensures(f, (i as u64,), #[trigger] values@[i]),
                forall|i: int| 0 <= i < x ==> #[trigger] values@[i] <= degree,
                0 <= top < x,
                values@[top] == degree,
            decreases size - x,
        {
            let y: u64 = f(x);
            values.push(y);
            if y > degree {
                degree = y;
                proof {
                    top = x as int;
                }
            }
            x = x + 1;
        }
        let lut = LookupTable { values, degree };
        proof {
            assert(lut.values@[top] == lut.degree);
        }
        lut
    }

    /// Tabulates `f` as a function from messages to messages: the entry of a
    /// payload `x` is what `f` yields on the message part `x % modulus`,
    /// reduced modulo `modulus`.
    pub fn generate_msg_lookup_table<F: Fn(u64) -> u64>(
        &self,
        f: F,
        modulus: MessageModulus,
    ) -> (lut: LookupTable)
        requires
            self.wf(),
            modulus.0 > 0,
            forall|x: u64| x < modulus.0 ==> call_requires(f, (x,)),
        ensures
            lut.values@.len() == self.modulus_sup(),
            forall|x: int|
                0 <= x < self.modulus_sup() ==> yields_reduced(
                    f,
                    (x as u64) % modulus.0,
                    modulus.0,
                    #[trigger] lut.values@[x],
                ),
            forall|x: int| 0 <= x < self.modulus_sup() ==> #[trigger] lut.values@[x] < modulus.0,
            lut.degree_is_max(),
            lut.degree < modulus.0,
    {
        let inner: &F = &f;
        let reduced = |x: u64| -> (y: u64)
            ensures
                yields_reduced(*inner, x % modulus.0, modulus.0, y),
            {
                let full: u64 = inner(x % modulus.0);
                full % modulus.0
            };
        self.generate_lookup_table(reduced)
    }
}

/// The engine that carries out table look-ups on blocks.
#[derive(Debug)]
pub struct ShortintEngine {}

impl ShortintEngine {
    pub fn new() -> (engine: Self) {
        ShortintEngine {  }
    }

    /// Replaces the payload of `ct` by its entry in `lut`.
    pub fn apply_lookup_table_assign(
        &mut self,
        server_key: &ServerKey,
        ct: &mut Ciphertext,
        lut: &LookupTable,
    )
        requires
            lut.values@.len() == server_key.modulus_sup(),
            old(ct).payload < server_key.modulus_sup(),
        ensures
            final(ct).payload == lut.values@[old(ct).payload as int],
            final(ct).degree == lut.degree,
            final(ct).message_modulus == old(ct).message_modulus,
            final(ct).carry_modulus == old(ct).carry_modulus,
    {
        let size: usize = lut.values.len();
        assert(ct.payload < size);
        let index: usize = ct.payload as usize;
        ct.payload = lut.values[index];
        ct.degree = lut.degree;
    }

    /// What a scalar bitwise operation leaves in a block: the payload is
    /// `scalar_bit_op` of the old payload, hence a message with an empty carry;
    /// the moduli are kept; and the degree is the largest value the operation
    /// yields on any payload under `server_key`, hence a message too.  A block
    /// of the key's own message modulus is ready for the next operation.
    pub open spec fn scalar_op_result(
        op: BitOp,
        server_key: ServerKey,
        before: Ciphertext,
        rhs: u8,
        after: Ciphertext,
    ) -> bool {
        let m = before.message_modulus.0;
        &&& after.payload == scalar_bit_op(op, before.payload, m, rhs)
        &&& after.payload < m
        &&& after.degree < m
        &&& before.message_modulus.0 == server_key.message_modulus.0 ==> Self::scalar_op_ready(
            server_key,
            after,
        )
        &&& after.message_modulus == before.message_modulus
        &&& after.carry_modulus == before.carry_modulus
        &&& forall|x: u64|
            x < server_key.modulus_sup() ==> #[trigger] scalar_bit_op(op, x, m, rhs)
                <= after.degree
        &&& exists|x: u64|
            x < server_key.modulus_sup() && #[trigger] scalar_bit_op(op, x, m, rhs)
                == after.degree
    }

    /// The inputs on which a scalar bitwise operation is defined: the key is
    /// valid, the block has a positive message modulus and its payload is one
    /// that the key's tables cover.
    pub open spec fn scalar_op_ready(server_key: ServerKey, lhs: Ciphertext) -> bool {
        &&& server_key.wf()
        &&& lhs.message_modulus.0 > 0
        &&& lhs.payload < server_key.modulus_sup()
    }

    proof fn lemma_table_gives_result(
        op: BitOp,
        server_key: ServerKey,
        before: Ciphertext,
        rhs: u8,
        lut: LookupTable,
        after: Ciphertext,
    )
        requires
            Self::scalar_op_ready(server_key, before),
            lut.values@.len() == server_key.modulus_sup(),
            forall|x: int|
                0 <= x < server_key.modulus_sup() ==> #[trigger] lut.values@[x] == scalar_bit_op(
                    op,
                    x as u64,
                    before.message_modulus.0,
                    rhs,
                ),
            lut.degree_is_max(),
            after.payload == lut.values@[before.payload as int],
            after.degree == lut.degree,
            after.message_modulus == before.message_modulus,
            after.carry_modulus == before.carry_modulus,
        ensures
            Self::scalar_op_result(op, server_key, before, rhs, after),
    {
        let m = before.message_modulus.0;
        lemma_bit_op_is_message(op, before.payload, m, rhs);
        assert forall|x: u64| x < server_key.modulus_sup() implies #[trigger] scalar_bit_op(
            op,
            x,
            m,
            rhs,
        ) <= after.degree by {
            assert(lut.values@[x as int] <= lut.degree);
        }
        let top = choose|x: int|
            0 <= x < lut.values@.len() && #[trigger] lut.values@[x] == lut.degree;
        assert(scalar_bit_op(op, top as u64, m, rhs) == after.degree);
        lemma_bit_op_is_message(op, top as u64, m, rhs);
        if m == server_key.message_modulus.0 {
            assert(m <= server_key.modulus_sup()) by (nonlinear_arith)
                requires
                    server_key.carry_modulus.0 >= 1,
                    server_key.modulus_sup() == m * server_key.carry_modulus.0,
            ;
        }
    }

    pub fn unchecked_scalar_bitand(
        &mut self,
        server_key: &ServerKey,
        lhs: &Ciphertext,
        rhs: u8,
    ) -> (result: Ciphertext)
        requires
            Self::scalar_op_ready(*server_key, *lhs),
        ensures
            Self::scalar_op_result(BitOp::And, *server_key, *lhs, rhs, result),
    {
        let mut result = lhs.clone();
        self.unchecked_scalar_bitand_assign(server_key, &mut result, rhs);
        result
    }

    pub fn unchecked_scalar_bitand_assign(
        &mut self,
        server_key: &ServerKey,
        lhs: &mut Ciphertext,
        rhs: u8,
    )
        requires
            Self::scalar_op_ready(*server_key, *old(lhs)),
        ensures
            Self::scalar_op_result(BitOp::And, *server_key, *old(lhs), rhs, *final(lhs)),
    {
        let ghost before = *lhs;
        let mask: u64 = rhs as u64;
        let combine = |x: u64| -> (y: u64)
            ensures
                y == (x & mask),
            { x & mask };
        let lut = server_key.generate_msg_lookup_table(combine, lhs.message_modulus);
        self.apply_lookup_table_assign(server_key, lhs, &lut);
        proof {
            let m = before.message_modulus.0;
            assert forall|x: int| 0 <= x < server_key.modulus_sup() implies #[trigger] lut.values@[x]
                == scalar_bit_op(BitOp::And, x as u64, m, rhs) by {
                assert(yields_reduced(combine, (x as u64) % m, m, lut.values@[x]));
                let a = (x as u64) % m;
                assert(a & mask <= a) by (bit_vector);
                lemma_small_mod((a & mask) as nat, m as nat);
            }
            Self::lemma_table_gives_result(BitOp::And, *server_key, before, rhs, lut, *lhs);
        }
    }

    pub fn smart_scalar_bitand(
        &mut self,
        server_key: &ServerKey,
        lhs: &mut Ciphertext,
        rhs: u8,
    ) -> (result: Ciphertext)
        requires
            Self::scalar_op_ready(*server_key, *old(lhs)),
        ensures
            *final(lhs) == *old(lhs),
            Self::scalar_op_result(BitOp::And, *server_key, *old(lhs), rhs, result),
    {
        let mut result = lhs.clone();
        self.smart_scalar_bitand_assign(server_key, &mut result, rhs);
        result
    }

    pub fn smart_scalar_bitand_assign(
        &mut self,
        server_key: &ServerKey,
        ct_left: &mut Ciphertext,
        ct_right: u8,
    )
        requires
            Self::scalar_op_ready(*server_key, *old(ct_left)),
        ensures
            Self::scalar_op_result(
                BitOp::And,
                *server_key,
                *old(ct_left),
                ct_right,
                *final(ct_left),
            ),
    {
        self.unchecked_scalar_bitand_assign(server_key, ct_left, ct_right);
    }

    pub fn unchecked_scalar_bitxor(
        &mut self,
        server_key: &ServerKey,
        lhs: &Ciphertext,
        rhs: u8,
    ) -> (result: Ciphertext)
        requires
            Self::scalar_op_ready(*server_key, *lhs),
        ensures
            Self::scalar_op_result(BitOp::Xor, *server_key, *lhs, rhs, result),
    {
        let mut result = lhs.clone();
        self.unchecked_scalar_bitxor_assign(server_key, &mut result, rhs);
        result
    }

    pub fn unchecked_scalar_bitxor_assign(
        &mut self,
        server_key: &ServerKey,
        lhs: &mut Ciphertext,
        rhs: u8,
    )
        requires
            Self::scalar_op_ready(*server_key, *old(lhs)),
        ensures
            Self::scalar_op_result(BitOp::Xor, *server_key, *old(lhs), rhs, *final(lhs)),
    {
        let ghost before = *lhs;
        let mask: u64 = rhs as u64;
        let combine = |x: u64| -> (y: u64)
            ensures
                y == (x ^ mask),
            { x ^ mask };
        let lut = server_key.generate_msg_lookup_table(combine, lhs.message_modulus);
        self.apply_lookup_table_assign(server_key, lhs, &lut);
        proof {
            let m = before.message_modulus.0;
            assert forall|x: int| 0 <= x < server_key.modulus_sup() implies #[trigger] lut.values@[x]
                == scalar_bit_op(BitOp::Xor, x as u64, m, rhs) by {
                assert(yields_reduced(combine, (x as u64) % m, m, lut.values@[x]));
            }
            Self::lemma_table_gives_result(BitOp::Xor, *server_key, before, rhs, lut, *lhs);
        }
    }

    pub fn smart_scalar_bitxor(
        &mut self,
        server_key: &ServerKey,
        lhs: &mut Ciphertext,
        rhs: u8,
    ) -> (result: Ciphertext)
        requires
            Self::scalar_op_ready(*server_key, *old(lhs)),
        ensures
            *final(lhs) == *old(lhs),
            Self::scalar_op_result(BitOp::Xor, *server_key, *old(lhs), rhs, result),
    {
        let mut result = lhs.clone();
        self.smart_scalar_bitxor_assign(server_key, &mut result, rhs);
        result
    }

    pub fn smart_scalar_bitxor_assign(
        &mut self,
        server_key: &ServerKey,
        lhs: &mut Ciphertext,
        rhs: u8,
    )
        requires
            Self::scalar_op_ready(*server_key, *old(lhs)),
        ensures
            Self::scalar_op_result(BitOp::Xor, *server_key, *old(lhs), rhs, *final(lhs)),
    {
        self.unchecked_scalar_bitxor_assign(server_key, lhs, rhs);
    }

    pub fn unchecked_scalar_bitor(
        &mut self,
        server_key: &ServerKey,
        lhs: &Ciphertext,
        rhs: u8,
    ) -> (result: Ciphertext)
        requires
            Self::scalar_op_ready(*server_key, *lhs),
        ensures
            Self::scalar_op_result(BitOp::Or, *server_key, *lhs, rhs, result),
    {
        let mut result = lhs.clone();
        self.unchecked_scalar_bitor_assign(server_key, &mut result, rhs);
        result
    }

    pub fn unchecked_scalar_bitor_assign(
        &mut self,
        server_key: &ServerKey,
        lhs: &mut Ciphertext,
        rhs: u8,
    )
        requires
            Self::scalar_op_ready(*server_key, *old(lhs)),
        ensures
            Self::scalar_op_result(BitOp::Or, *server_key, *old(lhs), rhs, *final(lhs)),
    {
        let ghost before = *lhs;
        let mask: u64 = rhs as u64;
        let combine = |x: u64| -> (y: u64)
            ensures
                y == (x | mask),
            { x | mask };
        let lut = server_key.generate_msg_lookup_table(combine, lhs.message_modulus);
        self.apply_lookup_table_assign(server_key, lhs, &lut);
        proof {
            let m = before.message_modulus.0;
            assert forall|x: int| 0 <= x < server_key.modulus_sup() implies #[trigger] lut.values@[x]
                == scalar_bit_op(BitOp::Or, x as u64, m, rhs) by {
                assert(yields_reduced(combine, (x as u64) % m, m, lut.values@[x]));
            }
            Self::lemma_table_gives_result(BitOp::Or, *server_key, before, rhs, lut, *lhs);
        }
    }

    pub fn smart_scalar_bitor(
        &mut self,
        server_key: &ServerKey,
        lhs: &mut Ciphertext,
        rhs: u8,
    ) -> (result: Ciphertext)
        requires
            Self::scalar_op_ready(*server_key, *old(lhs)),
        ensures
            *final(lhs) == *old(lhs),
            Self::scalar_op_result(BitOp::Or, *server_key, *old(lhs), rhs, result),
    {
        let mut result = lhs.clone();
        self.smart_scalar_bitor_assign(server_key, &mut result, rhs);
        result
    }

    pub fn smart_scalar_bitor_assign(
        &mut self,
        server_key: &ServerKey,
        lhs: &mut Ciphertext,
        rhs: u8,
    )
        requires
            Self::scalar_op_ready(*server_key, *old(lhs)),
        ensures
            Self::scalar_op_result(BitOp::Or, *server_key, *old(lhs), rhs, *final(lhs)),
    {
        self.unchecked_scalar_bitor_assign(server_key, lhs, rhs);
    }
}

} // verus!
