use zl001::assembler::Register;
use zl001::circuit::{Circuit, ConnectionError};
use zl001::codec::PersistenceError;
use zl001::connection::McConnection;
use zl001::microcontroller::Rect;

fn circuit_with(codes: &[&str]) -> Circuit {
    let mut c = Circuit::new();
    for (i, code) in codes.iter().enumerate() {
        c.add_circuit(Rect::new(10 * i as i32, 20, 100, 100));
        c.set_code(i, code.to_string());
    }
    for r in c.compile_all() {
        assert!(r.is_ok());
    }
    c
}

#[test]
fn single_mc_arithmetic_after_four_ticks() {
    let mut c = circuit_with(&["ADD #10 #0 R1\nADD #12 #0 R2\nADD R1 R2 R1\nHLT"]);
    for _ in 0..4 {
        c.tick();
    }
    let mc = c.get_mc(0);
    assert_eq!(mc.get_register_value(Register::R1), Some(22));
    assert_eq!(mc.get_register_value(Register::R2), Some(12));
    assert_eq!(mc.get_register_value(Register::PC), Some(4));
    assert!(mc.halted());
}

#[test]
fn two_mc_rendezvous_in_one_tick() {
    let mut c = circuit_with(&["ADD #42 #0 IO0\nHLT", "ADD IO0 #0 R1\nHLT"]);
    c.add_connection(McConnection::new(0, 0), McConnection::new(1, 0)).unwrap();
    c.tick();
    assert_eq!(c.get_mc(1).get_register_value(Register::R1), Some(42));
    for i in 0..2 {
        for p in 0..4 {
            assert!(!c.get_mc(i).io_read_out_ready(p));
            assert!(!c.get_mc(i).io_read_in_ready(p));
        }
    }
    c.tick();
    assert!(c.get_mc(0).halted());
    assert!(c.get_mc(1).halted());
}

#[test]
fn chain_resolves_in_one_tick() {
    let mut c = circuit_with(&[
        "ADD #5 #0 IO0\nHLT",
        "ADD IO0 #1 IO1\nHLT",
        "ADD IO2 #1 R2\nHLT",
    ]);
    c.add_connection(McConnection::new(0, 0), McConnection::new(1, 0)).unwrap();
    c.add_connection(McConnection::new(1, 1), McConnection::new(2, 2)).unwrap();
    c.tick();
    assert_eq!(c.get_mc(2).get_register_value(Register::R2), Some(7));
    for i in 0..3 {
        for p in 0..4 {
            assert!(!c.get_mc(i).io_read_out_ready(p));
            assert!(!c.get_mc(i).io_read_in_ready(p));
        }
    }
}

#[test]
fn value_produced_while_draining_reaches_earlier_mc() {
    let mut c = circuit_with(&["ADD IO0 #1 R1\nHLT", "ADD IO0 #10 IO1\nHLT", "ADD #3 #0 IO0\nHLT"]);
    c.add_connection(McConnection::new(2, 0), McConnection::new(1, 0)).unwrap();
    c.add_connection(McConnection::new(1, 1), McConnection::new(0, 0)).unwrap();
    c.tick();
    assert_eq!(c.get_mc(0).get_register_value(Register::R1), Some(14));
}

#[test]
fn collaborator_drains_output_between_ticks() {
    let mut c = circuit_with(&["ADD #7 #0 IO1\nHLT"]);
    for _ in 0..3 {
        c.tick();
        assert!(c.get_mc(0).io_read_out_ready(1));
        assert_eq!(c.get_mc(0).get_register_value(Register::PC), Some(1));
        assert!(!c.get_mc(0).halted());
    }
    assert_eq!(c.io_read_out(0, 1), Some(7));
    assert_eq!(c.io_read_out(0, 1), None);
    c.tick();
    assert!(c.get_mc(0).halted());
}

#[test]
fn collaborator_feeds_and_drains_loop() {
    let code = "ADD IO0 #0 R1\nloop:\n  SUB R1 #1 R1\n  ADD R1 #0 IO1\n  CMP R1 #0\n  BGT loop\nHLT";
    let mut c = circuit_with(&[code]);
    let mut out = Vec::new();
    for _ in 0..15 {
        c.tick();
        if c.get_mc(0).io_read_in_ready(0) {
            assert!(c.io_read_in(0, 3, 0).is_ok());
        }
        if let Some(v) = c.io_read_out(0, 1) {
            out.push(v);
        }
    }
    assert!(c.get_mc(0).halted());
    assert_eq!(c.get_mc(0).get_register_value(Register::R1), Some(0));
    assert_eq!(out, vec![2, 1, 0]);
    assert!(c.io_read_in(0, 1, 0).is_err());
}

#[test]
fn output_blocks_producer_without_consumer() {
    let mut c = circuit_with(&["ADD #7 #0 IO1\nHLT"]);
    c.tick();
    assert!(c.get_mc(0).io_read_out_ready(1));
    c.tick();
    c.tick();
    assert!(!c.get_mc(0).halted());
}

#[test]
fn tick_is_deterministic() {
    let codes = ["ADD #3 #0 IO0\nloop:\nADD IO1 #0 R1\nBRC loop", "top:\nADD IO0 #1 IO1\nBRC top"];
    let mut a = circuit_with(&codes);
    let mut b = circuit_with(&codes);
    for c in [&mut a, &mut b] {
        c.add_connection(McConnection::new(0, 0), McConnection::new(1, 0)).unwrap();
        c.add_connection(McConnection::new(1, 1), McConnection::new(0, 1)).unwrap();
    }
    for _ in 0..7 {
        a.tick();
        b.tick();
        for i in 0..2 {
            for r in [Register::PC, Register::R1, Register::R2, Register::RT] {
                assert_eq!(a.get_mc(i).get_register_value(r), b.get_mc(i).get_register_value(r));
            }
        }
    }
}

#[test]
fn ports_never_ready_both_ways_after_tick() {
    let mut c = circuit_with(&["ADD #1 #0 IO0\nADD IO0 #0 R1\nHLT", "ADD IO0 #0 IO0\nHLT"]);
    c.add_connection(McConnection::new(0, 0), McConnection::new(1, 0)).unwrap();
    c.add_connection(McConnection::new(1, 0), McConnection::new(0, 0)).unwrap();
    for _ in 0..5 {
        c.tick();
        for i in 0..2 {
            for p in 0..4 {
                let mc = c.get_mc(i);
                assert!(!(mc.io_read_in_ready(p) && mc.io_read_out_ready(p)));
            }
        }
    }
    assert_eq!(c.get_mc(0).get_register_value(Register::R1), Some(1));
}

#[test]
fn remove_mc_repoints_connections() {
    let mut c = circuit_with(&["HLT", "HLT", "HLT"]);
    c.add_connection(McConnection::new(2, 0), McConnection::new(0, 1)).unwrap();
    c.add_connection(McConnection::new(1, 0), McConnection::new(0, 2)).unwrap();
    c.add_connection(McConnection::new(0, 3), McConnection::new(1, 1)).unwrap();
    c.remove_mc(1);
    assert_eq!(c.num_mcs(), 2);
    assert_eq!(c.get_mc(1).get_rect(), Rect::new(20, 20, 100, 100));
    assert_eq!(c.connections().len(), 1);
    assert_eq!(c.get_connection(McConnection::new(1, 0)), Some(McConnection::new(0, 1)));
    assert_eq!(c.get_connection(McConnection::new(2, 0)), None);
}

#[test]
fn connection_errors() {
    let mut c = circuit_with(&["HLT", "HLT"]);
    assert_eq!(
        c.add_connection(McConnection::new(2, 0), McConnection::new(0, 0)),
        Err(ConnectionError::OutOfRangeMc)
    );
    assert_eq!(
        c.add_connection(McConnection::new(0, 4), McConnection::new(1, 0)),
        Err(ConnectionError::OutOfRangePort)
    );
    assert!(c.connections().is_empty());
    c.add_connection(McConnection::new(0, 1), McConnection::new(1, 0)).unwrap();
    c.add_connection(McConnection::new(0, 1), McConnection::new(1, 2)).unwrap();
    assert_eq!(c.connections().len(), 1);
    assert_eq!(c.get_connection(McConnection::new(0, 1)), Some(McConnection::new(1, 2)));
}

#[test]
fn compile_errors_are_per_mc() {
    let mut c = Circuit::new();
    c.add_circuit(Rect::new(0, 0, 1, 1));
    c.add_circuit(Rect::new(0, 0, 1, 1));
    c.set_code(0, String::from("FOO"));
    c.set_code(1, String::from("ADD #1 #0 R1"));
    let r = c.compile_all();
    assert!(r[0].is_err());
    assert!(r[1].is_ok());
    assert!(c.get_mc(0).halted());
    c.tick();
    assert_eq!(c.get_mc(1).get_register_value(Register::R1), Some(1));
}

#[test]
fn clear_empties_circuit() {
    let mut c = circuit_with(&["HLT", "HLT"]);
    c.add_connection(McConnection::new(0, 1), McConnection::new(1, 0)).unwrap();
    c.clear();
    assert_eq!(c.num_mcs(), 0);
    assert!(c.connections().is_empty());
}

#[test]
fn save_format() {
    let mut c = Circuit::new();
    c.add_circuit(Rect::new(20, -50, 100, 7));
    c.set_code(0, String::from("ADD #1 #0 R1\nHLT"));
    c.add_circuit(Rect::new(0, 0, 1, 2));
    c.add_connection(McConnection::new(0, 1), McConnection::new(1, 3)).unwrap();
    assert_eq!(
        c.save_text(),
        "<mc>\n20 -50 100 7\nADD #1 #0 R1\nHLT\n<mc>\n0 0 1 2\n\n<connections>\n0 1 1 3\n"
    );
}

#[test]
fn save_then_load_round_trip() {
    let mut c = Circuit::new();
    c.add_circuit(Rect::new(20, 50, 100, 100));
    c.add_circuit(Rect::new(-300, 50, 100, 100));
    c.add_circuit(Rect::new(20, 400, 100, 100));
    c.set_code(0, String::from("ADD IO0 #0 R1\n  HLT ; done"));
    c.set_code(2, String::from("x:\nBRC x"));
    c.add_connection(McConnection::new(0, 0), McConnection::new(1, 0)).unwrap();
    c.add_connection(McConnection::new(1, 0), McConnection::new(0, 0)).unwrap();
    c.add_connection(McConnection::new(0, 1), McConnection::new(2, 3)).unwrap();
    let text = c.save_text();
    let mut d = Circuit::new();
    d.load_text(&text).unwrap();
    assert_eq!(d.num_mcs(), 3);
    for i in 0..3 {
        assert_eq!(d.get_mc(i).get_rect(), c.get_mc(i).get_rect());
        assert_eq!(d.get_mc(i).get_code(), format!("{}\n", c.get_mc(i).get_code()));
    }
    assert_eq!(d.connections(), c.connections());
}

#[test]
fn load_accepts_spacing_and_blank_lines() {
    let mut d = Circuit::new();
    d.load_text("junk<mc>\n\n  1   2\t3 4 \nHLT\n<connections>\n\n 0 0  0 1 \n\n").unwrap();
    assert_eq!(d.num_mcs(), 1);
    assert_eq!(d.get_mc(0).get_rect(), Rect::new(1, 2, 3, 4));
    assert_eq!(d.get_mc(0).get_code(), "HLT\n");
    assert_eq!(d.get_connection(McConnection::new(0, 0)), Some(McConnection::new(0, 1)));
}

#[test]
fn load_errors_leave_empty_circuit() {
    let bad = [
        "<mc>\n1 2 3 4\nHLT\n",
        "<mc>\n1 2 3\nHLT\n<connections>\n",
        "<mc>\n1 2 3 x\nHLT\n<connections>\n",
        "<mc>\n1 2 3 4\nHLT\n<connections>\n0 0 0\n",
        "<mc>\n1 2 3 4\nHLT\n<connections>\n0 0 1 0\n",
        "<mc>\n1 2 3 4\nHLT\n<connections>\n0 0 0 4\n",
        "<mc>1 2 3 4<connections>\n",
    ];
    for text in bad {
        let mut d = Circuit::new();
        d.add_circuit(Rect::new(0, 0, 0, 0));
        let r = d.load_text(text);
        assert!(matches!(r, Err(PersistenceError::ParseError(_))), "{}", text);
        assert_eq!(d.num_mcs(), 0);
        assert!(d.connections().is_empty());
    }
}

#[test]
fn connection_getters() {
    let c = McConnection::new(3, 2);
    assert_eq!(c.get_mc_i(), 3);
    assert_eq!(c.get_io_i(), 2);
}

#[test]
fn empty_source_halts_at_once() {
    let mut c = circuit_with(&[""]);
    assert!(!c.get_mc(0).halted());
    c.tick();
    assert!(c.get_mc(0).halted());
    assert_eq!(c.get_mc(0).get_register_value(Register::PC), Some(0));
}

#[test]
fn empty_circuit_round_trip() {
    let c = Circuit::new();
    let text = c.save_text();
    assert_eq!(text, "<connections>\n");
    let mut d = Circuit::new();
    d.load_text(&text).unwrap();
    assert_eq!(d.num_mcs(), 0);
    assert!(d.connections().is_empty());
}
