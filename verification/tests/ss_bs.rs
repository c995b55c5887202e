use flowstation::ss_bs::{
    BitBuffer, CmcePduTypeUl, Layer2Service, LcmcMleUnitdataInd, MessageQueue, Sap, SapMsg,
    SapMsgInner, SsBsSubentity, SsiType, TetraAddress, TetraEntity,
};

fn facility(ssi: u32) -> SapMsg {
    SapMsg {
        sap: Sap::LcmcSap,
        src: TetraEntity::Mle,
        dest: TetraEntity::Cmce,
        msg: SapMsgInner::LcmcMleUnitdataInd(LcmcMleUnitdataInd {
            handle: 1,
            endpoint_id: 2,
            link_id: 3,
            received_tetra_address: TetraAddress { ssi, ssi_type: SsiType::Other },
        }),
    }
}

fn other() -> SapMsg {
    SapMsg {
        sap: Sap::Other,
        src: TetraEntity::Other,
        dest: TetraEntity::Cmce,
        msg: SapMsgInner::Other,
    }
}

#[test]
fn facility_is_answered() {
    let mut entity = SsBsSubentity::new();
    let mut queue = MessageQueue::new();
    let message = facility(1234);
    let pdu = entity.response(&message).unwrap();
    assert_eq!(pdu.not_supported_pdu_type, CmcePduTypeUl::UFacility);
    assert!(!pdu.call_identifier_present);
    assert_eq!(pdu.call_identifier, None);
    assert_eq!(pdu.function_not_supported_pointer, 0);
    assert_eq!(pdu.length_of_received_pdu_extract, None);
    assert_eq!(pdu.received_pdu_extract, None);
    let encoded = BitBuffer { bits: vec![true, false, true], pos: 3 };
    entity.route_re_deliver(&mut queue, message, Ok(encoded));
    assert_eq!(queue.len(), 1);
    let sent = queue.pop_front().unwrap();
    assert_eq!((sent.sap, sent.src, sent.dest), (Sap::LcmcSap, TetraEntity::Cmce, TetraEntity::Mle));
    match sent.msg {
        SapMsgInner::LcmcMleUnitdataReq(req) => {
            assert_eq!(req.sdu.bits, vec![true, false, true]);
            assert_eq!(req.sdu.pos, 0);
            assert_eq!((req.handle, req.endpoint_id, req.link_id), (1, 2, 3));
            assert_eq!(req.layer2service, Layer2Service::Unacknowledged);
            assert_eq!((req.pdu_prio, req.layer2_qos), (0, 0));
            assert!(!req.stealing_permission && !req.stealing_repeats_flag);
            assert!(!req.chan_alloc && !req.tx_reporter);
            assert_eq!(req.main_address, TetraAddress { ssi: 1234, ssi_type: SsiType::Issi });
        }
        _ => panic!("an answer is a request"),
    }
}

#[test]
fn nothing_else_is_answered() {
    let mut entity = SsBsSubentity::new();
    let mut queue = MessageQueue::new();
    assert!(entity.response(&other()).is_none());
    let encoded = BitBuffer { bits: vec![true], pos: 0 };
    entity.route_re_deliver(&mut queue, other(), Ok(encoded));
    assert!(queue.is_empty());
    entity.route_re_deliver(&mut queue, facility(1), Err("no room".to_string()));
    assert!(queue.is_empty());
}
