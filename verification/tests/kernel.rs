use aivpn_server::kernel::{
    kernel_session_sig, kernel_upkeep, sig_after, KernelInputs, KernelSession, KernelUpkeep,
    SendState, TagEntry,
};
use aivpn_server::peer::PeerAddr;

const SIG: u64 = 0x0202_0202_0202_0202 ^ (8 << 48) ^ (20 << 32);

fn inputs(installed_sig: u64) -> KernelInputs {
    KernelInputs {
        session: KernelSession {
            session_id: [1; 16],
            session_key: [2; 32],
            session_key_s2c: [3; 32],
            tag_secret: [4; 32],
            counter: 5,
            vpn_ip: Some([10, 0, 0, 2]),
            client_addr: PeerAddr::V4 { ip: [203, 0, 113, 7], port: 40000 },
        },
        expected: vec![
            TagEntry { tag: [6; 8], counter: 6 },
            TagEntry { tag: [7; 8], counter: 7 },
        ],
        installed_sig,
        state: SendState { send_counter: 10, send_seq: 3, kernel_window: 9 },
        armed: true,
        header_len: Some(20),
        max_header: 64,
        now_window: 9,
        tag_offset: 8,
        mdh_len: 20,
        family: [2, 0],
        window_ms: 5000,
    }
}

#[test]
fn kernel_is_told_what_changed() {
    let nothing = KernelUpkeep { reinstall: false, update_tags: false, rearm: false };
    assert!(kernel_upkeep(false, 1, 2, false) == nothing);
    assert!(kernel_upkeep(false, 1, 2, true) == KernelUpkeep { rearm: true, ..nothing });
    let tags = KernelUpkeep { update_tags: true, rearm: true, ..nothing };
    assert!(kernel_upkeep(true, 2, 2, false) == tags);
    assert!(kernel_upkeep(true, 1, 2, false) == KernelUpkeep { reinstall: true, ..tags });
}

#[test]
fn settled_keys_install_the_session() {
    let mut now = inputs(SIG);
    let work = now.install();
    assert_eq!(work.sig, SIG);
    assert_eq!(work.sig, kernel_session_sig(&[2; 32], 8, 20));
    let add = work.add.as_ref().unwrap();
    assert_eq!((add.session_id, add.counter_base, add.window_ms), ([1; 16], 5, 5000));
    assert_eq!((add.tag_offset, add.mdh_len), (8, 20));
    assert_eq!(work.tags.as_ref().unwrap().len(), 2);
    let block = work.block.as_ref().unwrap();
    assert_eq!((block.base, block.count, block.seq_base), (10, 128, 3));
    assert!(now.state == SendState { send_counter: 138, send_seq: 131, kernel_window: 9 });
    assert_eq!(sig_after(7, &work, true), SIG);
    assert_eq!(sig_after(7, &work, false), 7);
}

#[test]
fn refreshed_tags_reinstall_a_stale_session_alone() {
    let stale = inputs(0).keep_up(true);
    assert!(stale.add.is_some() && stale.tags.is_some() && stale.block.is_some());
    let mut now = inputs(sig_after(0, &stale, true));
    let current = now.keep_up(true);
    assert!(current.add.is_none());
    assert_eq!(current.tags.as_ref().unwrap()[1].counter, 7);
    assert_eq!(current.block.as_ref().unwrap().base, 10);
    assert_eq!(now.state.send_counter, 138);
    assert_eq!(sig_after(SIG, &current, true), SIG);
}

#[test]
fn counters_are_renewed_once_a_window() {
    let mut now = inputs(0);
    let idle = now.keep_up(false);
    assert!(idle.add.is_none() && idle.tags.is_none() && idle.block.is_none());
    assert_eq!(now.state.send_counter, 10);
    now.now_window = 11;
    let renewed = now.keep_up(false);
    assert!(renewed.add.is_none() && renewed.tags.is_none());
    assert_eq!(renewed.block.as_ref().unwrap().base, 10);
    assert!(now.state == SendState { send_counter: 138, send_seq: 131, kernel_window: 11 });
    assert!(now.keep_up(false).block.is_none());
    assert_eq!(now.state.send_counter, 138);
}

#[test]
fn kernel_without_downlink_gets_no_counters() {
    let mut now = KernelInputs { armed: false, ..inputs(0) };
    let work = now.keep_up(true);
    assert!(work.add.is_some() && work.tags.is_some() && work.block.is_none());
    assert_eq!(now.state.send_counter, 10);
}
