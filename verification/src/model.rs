//! Data model of the local subnet: transitions, instructions, events.

use vstd::prelude::*;

verus! {

/// One effect of a firing: set transition `transition_id` to `value`.
/// `is_external` records whether the target is owned by another node.
///
/// On the wire and in net files an instruction is a pair `(encoded, value)`
/// where a negative `encoded` marks an external target and the true id is
/// `-encoded - 1`; a non-negative `encoded` is the id itself.
#[derive(Debug, Clone, Copy, PartialEq, Eq, Structural)]
pub struct Instruction {
    pub transition_id: usize,
    pub value: isize,
    pub is_external: bool,
}

/// The id packed into a raw encoded instruction id.
pub open spec fn decoded_id(encoded: int) -> nat {
    if encoded < 0 {
        (-encoded - 1) as nat
    } else {
        encoded as nat
    }
}

/// Whether a raw encoded instruction id marks an external target.
pub open spec fn decoded_external(encoded: int) -> bool {
    encoded < 0
}

/// The raw encoding of an (id, externality) pair.
pub open spec fn encoded_of(id: nat, is_external: bool) -> int {
    if is_external {
        -(id as int) - 1
    } else {
        id as int
    }
}

impl Instruction {
    /// Decode one raw `(encoded_id, value)` pair.
    pub fn new(instruction: &(isize, isize)) -> (r: Self)
        ensures
            r.transition_id == decoded_id(instruction.0 as int),
            r.is_external == decoded_external(instruction.0 as int),
            r.value == instruction.1,
    {
        let transition_id = instruction.0;
        let is_external = transition_id < 0;
        let transition_id = if is_external {
            (-(transition_id + 1)) as usize
        } else {
            transition_id as usize
        };

        Self { transition_id, value: instruction.1, is_external }
    }

    /// Re-encode the id and externality flag into the raw form.
    pub fn encode(&self) -> (r: isize)
        requires
            self.transition_id <= isize::MAX as usize,
        ensures
            r as int == encoded_of(self.transition_id as nat, self.is_external),
    {
        if self.is_external {
            -(self.transition_id as isize) - 1
        } else {
            self.transition_id as isize
        }
    }
}

/// Decoding a raw encoded id and re-encoding the result gives the raw id
/// back: the (id, externality) pair carries exactly the information of the
/// encoded integer.
pub proof fn lemma_instruction_encoding_round_trip(encoded: int)
    ensures
        encoded_of(decoded_id(encoded), decoded_external(encoded)) == encoded,
{
}

/// The instruction a raw `(encoded_id, value)` pair stands for.
pub open spec fn decoded_instruction(raw: (isize, isize)) -> Instruction {
    Instruction {
        transition_id: decoded_id(raw.0 as int) as usize,
        value: raw.1,
        is_external: decoded_external(raw.0 as int),
    }
}

/// Decode a whole raw instruction list, keeping its order.
pub fn parse_instructions(instructions: &Vec<(isize, isize)>) -> (r: Vec<Instruction>)
    ensures
        r@.len() == instructions@.len(),
        forall|i: int|
            0 <= i < instructions@.len() ==> r@[i] == decoded_instruction(instructions@[i]),
{
    let mut r: Vec<Instruction> = Vec::new();
    let mut i: usize = 0;
    while i < instructions.len()
        invariant
            i <= instructions@.len(),
            r@.len() == i,
            forall|j: int| 0 <= j < i ==> r@[j] == decoded_instruction(instructions@[j]),
        decreases instructions@.len() - i,
    {
        r.push(Instruction::new(&instructions[i]));
        i = i + 1;
    }
    r
}

/// One transition of the local subnet.  `clock` is the last time at which it
/// was updated; it fires when `clock` equals the engine clock and `value` is
/// not positive.  A firing applies the immediate instructions at `clock` and
/// schedules the delayed ones for `clock + duration`.
#[derive(Debug)]
pub struct Transition {
    pub id: usize,
    pub value: isize,
    pub clock: usize,
    pub duration: usize,
    pub immediate_instructions: Vec<Instruction>,
    pub delayed_instructions: Vec<Instruction>,
    pub is_output: bool,
}

/// The local subnet: the transitions this node owns, in file order.
#[derive(Debug)]
pub struct Net {
    pub transitions: Vec<Transition>,
}

impl Net {
    /// Build the local net from the records of one net file, decoding every
    /// instruction pair.
    pub fn from_records(records: &crate::json::Net) -> (r: Net)
        ensures
            r.transitions@.len() == records.ia_red@.len(),
            forall|i: int|
                0 <= i < records.ia_red@.len() ==> {
                    let rec = records.ia_red@[i];
                    let t = #[trigger] r.transitions@[i];
                    &&& t.id == rec.ii_idglobal
                    &&& t.value == rec.ii_valor
                    &&& t.clock == rec.ii_tiempo
                    &&& t.duration == rec.ii_duracion_disparo
                    &&& t.is_output == rec.ib_desalida
                    &&& t.immediate_instructions@.len() == rec.ii_listactes_iul@.len()
                    &&& forall|j: int|
                        0 <= j < rec.ii_listactes_iul@.len()
                            ==> t.immediate_instructions@[j] == decoded_instruction(
                            rec.ii_listactes_iul@[j],
                        )
                    &&& t.delayed_instructions@.len() == rec.ii_listactes_pul@.len()
                    &&& forall|j: int|
                        0 <= j < rec.ii_listactes_pul@.len()
                            ==> t.delayed_instructions@[j] == decoded_instruction(
                            rec.ii_listactes_pul@[j],
                        )
                },
    {
        let mut transitions: Vec<Transition> = Vec::new();
        let mut i: usize = 0;
        while i < records.ia_red.len()
            invariant
                i <= records.ia_red@.len(),
                transitions@.len() == i,
                forall|k: int|
                    0 <= k < i ==> {
                        let rec = records.ia_red@[k];
                        let t = #[trigger] transitions@[k];
                        &&& t.id == rec.ii_idglobal
                        &&& t.value == rec.ii_valor
                        &&& t.clock == rec.ii_tiempo
                        &&& t.duration == rec.ii_duracion_disparo
                        &&& t.is_output == rec.ib_desalida
                        &&& t.immediate_instructions@.len() == rec.ii_listactes_iul@.len()
                        &&& forall|j: int|
                            0 <= j < rec.ii_listactes_iul@.len()
                                ==> t.immediate_instructions@[j] == decoded_instruction(
                                rec.ii_listactes_iul@[j],
                            )
                        &&& t.delayed_instructions@.len() == rec.ii_listactes_pul@.len()
                        &&& forall|j: int|
                            0 <= j < rec.ii_listactes_pul@.len()
                                ==> t.delayed_instructions@[j] == decoded_instruction(
                                rec.ii_listactes_pul@[j],
                            )
                    },
            decreases records.ia_red@.len() - i,
        {
            let rec = &records.ia_red[i];
            let t = Transition {
                id: rec.ii_idglobal,
                value: rec.ii_valor,
                clock: rec.ii_tiempo,
                duration: rec.ii_duracion_disparo,
                immediate_instructions: parse_instructions(&rec.ii_listactes_iul),
                delayed_instructions: parse_instructions(&rec.ii_listactes_pul),
                is_output: rec.ib_desalida,
            };
            transitions.push(t);
            i = i + 1;
        }
        Net { transitions }
    }
}

/// An event announcing that transition `transition_id` acquires `value` at
/// time `clock`; `feeding_node` is the sender's endpoint.
#[derive(Debug)]
pub struct ActiveEvent {
    pub feeding_node: String,
    pub transition_id: usize,
    pub value: isize,
    pub clock: usize,
}

/// A null/lookahead message: `feeding_node` promises to send no event with a
/// timestamp earlier than `clock`.
#[derive(Debug)]
pub struct PassiveEvent {
    pub feeding_node: String,
    pub clock: usize,
}

/// The envelope common to both wire messages: just the sender's endpoint,
/// enough for the listener to route a raw line to the right inbox.
#[derive(Debug)]
pub struct GenericEvent {
    pub feeding_node: String,
}

/// Mathematical value of an [`ActiveEvent`].
pub struct ActiveEventView {
    pub feeding_node: Seq<char>,
    pub transition_id: nat,
    pub value: int,
    pub clock: nat,
}

impl View for ActiveEvent {
    type V = ActiveEventView;

    open spec fn view(&self) -> ActiveEventView {
        ActiveEventView {
            feeding_node: self.feeding_node@,
            transition_id: self.transition_id as nat,
            value: self.value as int,
            clock: self.clock as nat,
        }
    }
}

/// Mathematical value of a [`PassiveEvent`].
pub struct PassiveEventView {
    pub feeding_node: Seq<char>,
    pub clock: nat,
}

impl View for PassiveEvent {
    type V = PassiveEventView;

    open spec fn view(&self) -> PassiveEventView {
        PassiveEventView { feeding_node: self.feeding_node@, clock: self.clock as nat }
    }
}

/// A decoded wire message: active or passive.
#[derive(Debug)]
pub enum Event {
    Active(ActiveEvent),
    Passive(PassiveEvent),
}

/// The values of a buffer of active events, in buffer order.
pub open spec fn events_view(s: Seq<ActiveEvent>) -> Seq<ActiveEventView> {
    s.map_values(|e: ActiveEvent| e@)
}

} // verus!

