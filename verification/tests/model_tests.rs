use distconssim::json;
use distconssim::model::Instruction;
use distconssim::model::Net;
use distconssim::model::parse_instructions;

#[test]
fn negative_encoded_id_means_external() {
    let ins = Instruction::new(&(-3, 7));
    assert_eq!(ins.transition_id, 2);
    assert!(ins.is_external);
    assert_eq!(ins.value, 7);
}

#[test]
fn non_negative_encoded_id_means_internal() {
    let ins = Instruction::new(&(4, -2));
    assert_eq!(ins.transition_id, 4);
    assert!(!ins.is_external);
    assert_eq!(ins.value, -2);
}

#[test]
fn encoding_round_trips() {
    for raw in [-5isize, -2, -1, 0, 1, 9] {
        let ins = Instruction::new(&(raw, 0));
        assert_eq!(ins.encode(), raw);
    }
}

#[test]
fn instruction_lists_keep_order() {
    let raw = vec![(0isize, 1isize), (-1, 2), (3, -4)];
    let parsed = parse_instructions(&raw);
    assert_eq!(parsed.len(), 3);
    assert_eq!(parsed[0], Instruction { transition_id: 0, value: 1, is_external: false });
    assert_eq!(parsed[1], Instruction { transition_id: 0, value: 2, is_external: true });
    assert_eq!(parsed[2], Instruction { transition_id: 3, value: -4, is_external: false });
}

#[test]
fn net_from_records_maps_every_field() {
    let rec = json::Transition {
        ii_idglobal: 9,
        ii_valor: -3,
        ii_tiempo: 2,
        ii_duracion_disparo: 5,
        ii_listactes_iul: vec![(1, 10)],
        ii_listactes_pul: vec![(-1, 20), (2, 30)],
        ib_desalida: true,
    };
    let net = Net::from_records(&json::Net { ia_red: vec![rec] });
    assert_eq!(net.transitions.len(), 1);
    let t = &net.transitions[0];
    assert_eq!(t.id, 9);
    assert_eq!(t.value, -3);
    assert_eq!(t.clock, 2);
    assert_eq!(t.duration, 5);
    assert!(t.is_output);
    assert_eq!(t.immediate_instructions.len(), 1);
    assert_eq!(
        t.immediate_instructions[0],
        Instruction { transition_id: 1, value: 10, is_external: false }
    );
    assert_eq!(t.delayed_instructions.len(), 2);
    assert_eq!(
        t.delayed_instructions[0],
        Instruction { transition_id: 0, value: 20, is_external: true }
    );
    assert_eq!(
        t.delayed_instructions[1],
        Instruction { transition_id: 2, value: 30, is_external: false }
    );
}
