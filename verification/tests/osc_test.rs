use rosc::{OscMessage, OscPacket, OscType};
use trackfwd::osc::{tracker_address, tracker_arguments, tracker_message};
use trackfwd::transform::{CoordsSystem, Quaternion, Transform, Vector3};

fn sample() -> Transform {
    Transform {
        rotation: Quaternion {
            x: 0.1f32.to_bits(),
            y: 0.2f32.to_bits(),
            z: (-0.3f32).to_bits(),
            w: 0.9f32.to_bits(),
        },
        position: Vector3 { x: 1.0f32.to_bits(), y: 2.0f32.to_bits(), z: 3.0f32.to_bits() },
    }
}

#[test]
fn address_names_the_tracker() {
    assert_eq!(tracker_address(0), "/tracker/0");
    assert_eq!(tracker_address(7), "/tracker/7");
    assert_eq!(tracker_address(9), "/tracker/9");
    assert_eq!(tracker_address(10), "/tracker/10");
    assert_eq!(tracker_address(42), "/tracker/42");
    assert_eq!(tracker_address(100), "/tracker/100");
    assert_eq!(tracker_address(1905), "/tracker/1905");
    assert_eq!(tracker_address(u32::MAX), "/tracker/4294967295");
}

#[test]
fn address_agrees_with_formatting() {
    let mut n: u32 = 1;
    for _ in 0..2000 {
        assert_eq!(tracker_address(n), format!("/tracker/{}", n));
        n = n.wrapping_mul(1_664_525).wrapping_add(1_013_904_223);
    }
}

#[test]
fn arguments_are_position_then_rotation() {
    let args = tracker_arguments(&sample());
    let values: Vec<f32> = args.iter().map(|b| f32::from_bits(*b)).collect();
    assert_eq!(values, vec![1.0, 2.0, 3.0, 0.1, 0.2, -0.3, 0.9]);
}

#[test]
fn message_holds_address_and_arguments() {
    let m = tracker_message(3, &sample());
    assert_eq!(m.addr, "/tracker/3");
    assert_eq!(m.args, tracker_arguments(&sample()));
    assert_eq!(m.args.len(), 7);
}

#[test]
fn message_of_a_pose_on_the_wire() {
    let pose = [
        [0.0f32.to_bits(), 0.0f32.to_bits(), 1.0f32.to_bits(), 0.0f32.to_bits()],
        [0.0f32.to_bits(), 1.0f32.to_bits(), 0.0f32.to_bits(), 1.0f32.to_bits()],
        [(-1.0f32).to_bits(), 0.0f32.to_bits(), 0.0f32.to_bits(), 0.0f32.to_bits()],
    ];
    let t = Transform::from_pose_matrix(&pose, &Some(CoordsSystem::Unreal));
    let m = tracker_message(12, &t);
    let packet = OscPacket::Message(OscMessage {
        addr: m.addr,
        args: m.args.iter().map(|b| OscType::Float(f32::from_bits(*b))).collect(),
    });
    let bytes = rosc::encoder::encode(&packet).unwrap();
    let mut expected: Vec<u8> = Vec::new();
    expected.extend_from_slice(b"/tracker/12\0");
    expected.extend_from_slice(b",fffffff\0\0\0\0");
    for v in [0.0f32, 0.0, 100.0, 0.0, 0.0, -0.70710677, 0.70710677] {
        expected.extend_from_slice(&v.to_be_bytes());
    }
    assert_eq!(bytes.len(), 52);
    assert_eq!(bytes[..24], expected[..24]);
    for i in 0..7 {
        let got = f32::from_be_bytes([bytes[24 + 4 * i], bytes[25 + 4 * i], bytes[26 + 4 * i], bytes[27 + 4 * i]]);
        let want = f32::from_be_bytes([expected[24 + 4 * i], expected[25 + 4 * i], expected[26 + 4 * i], expected[27 + 4 * i]]);
        assert_eq!(got, want);
    }
    let (_, decoded) = rosc::decoder::decode_udp(&bytes).unwrap();
    match decoded {
        OscPacket::Message(msg) => {
            assert_eq!(msg.addr, "/tracker/12");
            assert_eq!(msg.args.len(), 7);
            assert_eq!(msg.args[2], OscType::Float(100.0));
            assert_eq!(msg.args[6], OscType::Float(0.70710677));
        }
        OscPacket::Bundle(_) => panic!("a message was sent"),
    }
}
