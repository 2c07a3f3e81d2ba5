//! End-to-end tests of the multiplication protocol over an in-memory
//! mesh of channels, and tests of the transport pieces.

use rand::thread_rng;
use shamir_mpc::math::mersenne61::{MODULUS, Mersenne61};
use shamir_mpc::mpc::share::{ShamirShare, decode_share, encode_share};
use shamir_mpc::mpc::{
    ProtocolError, broadcast_result_share, multiply_protocol_recv, multiply_protocol_send,
    recv_result_and_reconstruct, recv_threshold_shares, share_secret_and_send,
};
use shamir_mpc::net::channel::{
    Channel, ChannelError, LoopBackChannel, PartyChannel, connect_retry_decision,
};
use shamir_mpc::net::frame::{decode_frame_header, encode_frame};
use shamir_mpc::net::{ConnectionRole, Network, Packet, connection_role};
use std::cell::RefCell;
use std::collections::VecDeque;
use std::rc::Rc;

/// An in-memory bidirectional channel endpoint: what the local party
/// sends lands in the peer's incoming queue and vice versa.
struct MeshChannel {
    incoming: Rc<RefCell<VecDeque<Vec<u8>>>>,
    outgoing: Rc<RefCell<VecDeque<Vec<u8>>>>,
}

impl Channel for MeshChannel {
    fn shutdown(&mut self) -> Result<(), ChannelError> {
        self.incoming.borrow_mut().clear();
        Ok(())
    }

    fn send(&mut self, packet: &Packet) -> Result<usize, ChannelError> {
        self.outgoing.borrow_mut().push_back(packet.as_slice().to_vec());
        Ok(packet.size())
    }

    fn recv(&mut self) -> Result<Packet, ChannelError> {
        match self.incoming.borrow_mut().pop_front() {
            Some(bytes) => Ok(Packet::new(bytes)),
            None => Err(ChannelError::EmptyBuffer),
        }
    }
}

/// Builds one fully meshed network per party, wired through shared
/// in-memory queues; the slot of each party's own ID is a loopback.
fn build_mesh(n: usize) -> Vec<Network<MeshChannel>> {
    let mut queues: Vec<Vec<Rc<RefCell<VecDeque<Vec<u8>>>>>> = Vec::new();
    for _ in 0..n {
        let mut row = Vec::new();
        for _ in 0..n {
            row.push(Rc::new(RefCell::new(VecDeque::new())));
        }
        queues.push(row);
    }
    let mut networks = Vec::new();
    for me in 0..n {
        let mut slots: Vec<PartyChannel<MeshChannel>> = Vec::new();
        for peer in 0..n {
            if peer == me {
                slots.push(PartyChannel::LoopBack(LoopBackChannel::new()));
            } else {
                slots.push(PartyChannel::Remote(MeshChannel {
                    incoming: queues[peer][me].clone(),
                    outgoing: queues[me][peer].clone(),
                }));
            }
        }
        networks.push(Network::from_channels(slots));
    }
    networks
}

/// Runs a full session for every party in lock step and returns the
/// value each party reconstructs.
fn run_mesh_session(n: usize, t: usize, inputs: &[u64]) -> Vec<u64> {
    assert_eq!(inputs.len(), n);
    assert!(2 * t + 1 <= n);
    let mut rng = thread_rng();
    let mut nets = build_mesh(n);

    // Input phase: every party shares its input, then collects shares.
    for (k, net) in nets.iter_mut().enumerate() {
        share_secret_and_send(&Mersenne61::from(inputs[k]), n, t, &mut rng, net).unwrap();
    }
    let mut input_shares: Vec<Vec<ShamirShare>> = Vec::new();
    for net in nets.iter_mut() {
        input_shares.push(recv_threshold_shares(n, t, net).unwrap());
    }

    // Multiplication rounds: fold every input into the running product.
    let mut acc: Vec<ShamirShare> = Vec::new();
    for (k, net) in nets.iter_mut().enumerate() {
        multiply_protocol_send(&input_shares[k][0], &input_shares[k][1], n, t, &mut rng, net)
            .unwrap();
    }
    for net in nets.iter_mut() {
        acc.push(multiply_protocol_recv(n, t, net).unwrap());
    }
    for idx in 2..n {
        for (k, net) in nets.iter_mut().enumerate() {
            multiply_protocol_send(&acc[k], &input_shares[k][idx], n, t, &mut rng, net).unwrap();
        }
        for (k, net) in nets.iter_mut().enumerate() {
            acc[k] = multiply_protocol_recv(n, t, net).unwrap();
        }
    }

    // Reveal phase.
    for (k, net) in nets.iter_mut().enumerate() {
        broadcast_result_share(&acc[k], net).unwrap();
    }
    let mut results = Vec::new();
    for net in nets.iter_mut() {
        results.push(recv_result_and_reconstruct(n, net).unwrap().to_u64());
    }
    results
}

#[test]
fn protocol_three_parties_product() {
    let results = run_mesh_session(3, 1, &[2, 3, 4]);
    assert_eq!(results, vec![24, 24, 24]);
}

#[test]
fn protocol_five_parties_product() {
    let results = run_mesh_session(5, 2, &[1, 1, 1, 1, 7]);
    assert_eq!(results, vec![7, 7, 7, 7, 7]);
}

#[test]
fn protocol_product_with_zero() {
    let results = run_mesh_session(3, 1, &[5, 0, 9]);
    assert_eq!(results, vec![0, 0, 0]);
}

#[test]
fn protocol_product_wraps_modulus() {
    // (p - 1) * 2 * 1 * 1 = 2p - 2 = p - 2 (mod p).
    let results = run_mesh_session(4, 1, &[MODULUS - 1, 2, 1, 1]);
    assert_eq!(results, vec![MODULUS - 2; 4]);
}

#[test]
fn loopback_round_trip_one_mebibyte() {
    let payload = vec![0x5A_u8; 1 << 20];
    let mut channel = LoopBackChannel::new();
    channel.send(&Packet::new(payload.clone())).unwrap();
    let out = channel.recv().unwrap();
    assert_eq!(out.as_slice(), payload.as_slice());
}

#[test]
fn loopback_fifo_order() {
    let mut channel = LoopBackChannel::new();
    for k in 0..10_u8 {
        channel.send(&Packet::new(vec![k, k + 1])).unwrap();
    }
    for k in 0..10_u8 {
        let out = channel.recv().unwrap();
        assert_eq!(out.as_slice(), &[k, k + 1]);
    }
    assert!(matches!(channel.recv(), Err(ChannelError::EmptyBuffer)));
}

#[test]
fn loopback_shutdown_is_terminal() {
    // Closing drops the queue and every later operation fails.
    let mut channel = LoopBackChannel::new();
    channel.send(&Packet::new(vec![1, 2, 3])).unwrap();
    channel.shutdown().unwrap();
    assert!(matches!(channel.recv(), Err(ChannelError::Transport)));
    assert!(matches!(
        channel.send(&Packet::new(vec![4])),
        Err(ChannelError::Transport)
    ));
}

#[test]
fn network_close_is_terminal() {
    // After close, every network operation fails.
    let mut nets = build_mesh(1);
    let net = &mut nets[0];
    net.close().unwrap();
    assert!(matches!(
        net.send_to(&Packet::new(vec![1]), 0),
        Err(ChannelError::Transport)
    ));
    assert!(matches!(net.recv_from(0), Err(ChannelError::Transport)));
    assert!(matches!(net.send(&Packet::new(vec![1])), Err(ChannelError::Transport)));
    assert!(matches!(net.recv(), Err(ChannelError::Transport)));
}

#[test]
fn connection_role_assignment() {
    assert_eq!(connection_role(2, 0), ConnectionRole::Client);
    assert_eq!(connection_role(2, 4), ConnectionRole::Server);
    assert_eq!(connection_role(2, 2), ConnectionRole::SelfLoop);
}

#[test]
fn share_nodes_invertibility_check() {
    // Distinct nodes always admit invertible differences (p is prime).
    assert!(shamir_mpc::mpc::check_share_nodes_invertible(0));
    assert!(shamir_mpc::mpc::check_share_nodes_invertible(1));
    assert!(shamir_mpc::mpc::check_share_nodes_invertible(25));
}

#[test]
fn frame_round_trip() {
    let packet = Packet::new(vec![9, 8, 7, 6, 5]);
    let frame = encode_frame(&packet);
    assert_eq!(frame.len(), 13);
    let length = decode_frame_header(&frame[0..8]);
    assert_eq!(length, 5);
    assert_eq!(&frame[8..], packet.as_slice());
}

#[test]
fn share_codec_round_trip() {
    let share = ShamirShare::new(Mersenne61::from(987654321), 5);
    let bytes = encode_share(&share);
    assert_eq!(bytes.len(), 16);
    let decoded = decode_share(&bytes).unwrap();
    assert_eq!(decoded.value, share.value);
    assert_eq!(decoded.degree, share.degree);
}

#[test]
fn share_codec_rejects_garbage() {
    // Too short.
    assert_eq!(decode_share(&[1, 2, 3]), Err(ProtocolError::Malformed));
    // Value part not reduced.
    let mut bytes = encode_share(&ShamirShare::new(Mersenne61::zero(), 1));
    bytes[0..8].copy_from_slice(&u64::MAX.to_le_bytes());
    assert_eq!(decode_share(&bytes), Err(ProtocolError::Malformed));
}

#[test]
fn malformed_packet_aborts_protocol() {
    // A peer that sends garbage instead of an encoded share is a
    // protocol violation.
    let mut nets = build_mesh(2);
    let mut rng = thread_rng();
    share_secret_and_send(&Mersenne61::from(3), 2, 0, &mut rng, &mut nets[0]).unwrap();
    // Party 1 sends a packet that is too short to be a share.
    nets[1].send_to(&Packet::new(vec![1, 2, 3]), 0).unwrap();
    assert_eq!(
        recv_threshold_shares(2, 0, &mut nets[0]),
        Err(ProtocolError::Malformed)
    );
}

#[test]
fn wrong_degree_share_aborts_protocol() {
    // A share of the wrong degree is rejected in the receive phase.
    let mut nets = build_mesh(2);
    let share = ShamirShare::new(Mersenne61::from(9), 7);
    nets[1]
        .send_to(&Packet::new(encode_share(&share)), 0)
        .unwrap();
    nets[0]
        .send_to(&Packet::new(encode_share(&share)), 0)
        .unwrap();
    assert_eq!(
        recv_threshold_shares(2, 1, &mut nets[0]),
        Err(ProtocolError::Malformed)
    );
}

#[test]
fn empty_channel_aborts_protocol() {
    // Receiving with nothing queued surfaces the loopback buffer error.
    let mut nets = build_mesh(1);
    assert_eq!(
        recv_threshold_shares(1, 0, &mut nets[0]),
        Err(ProtocolError::Channel(ChannelError::EmptyBuffer))
    );
}

#[test]
fn connect_timeout_decision() {
    assert_eq!(connect_retry_decision(1001, 1000), Some(ChannelError::Timeout));
    assert_eq!(connect_retry_decision(1000, 1000), None);
    assert_eq!(connect_retry_decision(0, 1000), None);
}

#[test]
fn share_algebra() {
    let a = ShamirShare::new(Mersenne61::from(10), 2);
    let b = ShamirShare::new(Mersenne61::from(4), 3);
    let sum = a.add(&b);
    assert_eq!(sum.value, Mersenne61::from(14));
    assert_eq!(sum.degree, 3);
    let prod = a.multiply(&b);
    assert_eq!(prod.value, Mersenne61::from(40));
    assert_eq!(prod.degree, 5);
    let scaled = a.multiply_const(&Mersenne61::from(3));
    assert_eq!(scaled.value, Mersenne61::from(30));
    assert_eq!(scaled.degree, 2);
    let shifted = a.add_const(&Mersenne61::from(1));
    assert_eq!(shifted.value, Mersenne61::from(11));
    assert_eq!(shifted.degree, 2);
    let lowered = a.subtract_const(&Mersenne61::from(1));
    assert_eq!(lowered.value, Mersenne61::from(9));
    assert_eq!(lowered.degree, 2);
    let negated = a.negate();
    assert_eq!(negated.value, Mersenne61::from(10).negate());
    let diff = a.subtract(&b);
    assert_eq!(diff.value, Mersenne61::from(6));
    assert_eq!(diff.degree, 3);
}

#[test]
fn dummy_channel_behaviour() {
    let mut dummy = shamir_mpc::net::channel::DummyChannel;
    assert_eq!(dummy.send(&Packet::new(vec![1, 2])).unwrap(), 0);
    assert_eq!(dummy.recv().unwrap().size(), 0);
    assert!(dummy.shutdown().is_ok());
}
