//! Supplementary services (clause 12) of the circuit mode control entity.
//!
//! The base station supports none: whatever service a terminal asks for, it is answered with
//! D-CMCE-FUNCTION-NOT-SUPPORTED (ETSI EN 300 392-2, clause 14.7.2.5).

use std::collections::VecDeque;
use vstd::prelude::*;

verus! {

/// Bits, and the place at which they are read next.
#[derive(Debug, Clone)]
pub struct BitBuffer {
    pub bits: Vec<bool>,
    pub pos: usize,
}

impl BitBuffer {
    /// Moves the place at which the bits are read next.
    pub fn seek(&mut self, pos: usize)
        ensures
            *final(self) == (BitBuffer { pos, ..*old(self) }),
    {
        self.pos = pos;
    }
}

/// The kind of a short subscriber identity.
#[derive(Debug, Clone, Copy, PartialEq, Eq, Structural)]
pub enum SsiType {
    /// That of one subscriber.
    Issi,
    /// Any other.
    Other,
}

#[derive(Debug, Clone, Copy, PartialEq, Eq, Structural)]
pub struct TetraAddress {
    pub ssi: u32,
    pub ssi_type: SsiType,
}

/// The service access point that a message crosses.
#[derive(Debug, Clone, Copy, PartialEq, Eq, Structural)]
pub enum Sap {
    LcmcSap,
    Other,
}

/// The entity that a message comes from or goes to.
#[derive(Debug, Clone, Copy, PartialEq, Eq, Structural)]
pub enum TetraEntity {
    Cmce,
    Mle,
    Other,
}

#[derive(Debug, Clone, Copy, PartialEq, Eq, Structural)]
pub enum Layer2Service {
    Unacknowledged,
    Other,
}

/// The types of uplink PDUs that this sub-entity answers.
#[derive(Debug, Clone, Copy, PartialEq, Eq, Structural)]
pub enum CmcePduTypeUl {
    UFacility,
}

/// D-CMCE-FUNCTION-NOT-SUPPORTED.
#[derive(Debug, Clone, Copy, PartialEq, Eq, Structural)]
pub struct CmceFunctionNotSupported {
    pub not_supported_pdu_type: CmcePduTypeUl,
    pub call_identifier_present: bool,
    pub call_identifier: Option<u16>,
    pub function_not_supported_pointer: u8,
    pub length_of_received_pdu_extract: Option<u8>,
    pub received_pdu_extract: Option<u64>,
}

/// A PDU that was received, as far as it is looked at.
#[derive(Debug, Clone, Copy, PartialEq, Eq, Structural)]
pub struct LcmcMleUnitdataInd {
    pub handle: u32,
    pub endpoint_id: u32,
    pub link_id: u32,
    pub received_tetra_address: TetraAddress,
}

/// A PDU that is to be sent.
#[derive(Debug, Clone)]
pub struct LcmcMleUnitdataReq {
    pub sdu: BitBuffer,
    pub handle: u32,
    pub endpoint_id: u32,
    pub link_id: u32,
    pub layer2service: Layer2Service,
    pub pdu_prio: u8,
    pub layer2_qos: u8,
    pub stealing_permission: bool,
    pub stealing_repeats_flag: bool,
    /// Whether a channel is allocated with it.
    pub chan_alloc: bool,
    pub main_address: TetraAddress,
    /// Whether its transmission is reported back.
    pub tx_reporter: bool,
}

#[derive(Debug, Clone)]
pub enum SapMsgInner {
    LcmcMleUnitdataInd(LcmcMleUnitdataInd),
    LcmcMleUnitdataReq(LcmcMleUnitdataReq),
    Other,
}

/// A message between two entities.
#[derive(Debug, Clone)]
pub struct SapMsg {
    pub sap: Sap,
    pub src: TetraEntity,
    pub dest: TetraEntity,
    pub msg: SapMsgInner,
}

/// Messages on their way, in the order in which they are taken.
pub type MessageQueue = VecDeque<SapMsg>;

/// The answer to whatever supplementary service is asked for: it is the PDU type itself that is
/// not supported, and no call is concerned.
pub open spec fn not_supported() -> CmceFunctionNotSupported {
    CmceFunctionNotSupported {
        not_supported_pdu_type: CmcePduTypeUl::UFacility,
        call_identifier_present: false,
        call_identifier: None,
        function_not_supported_pointer: 0,
        length_of_received_pdu_extract: None,
        received_pdu_extract: None,
    }
}

/// The message that carries an encoded answer back to where the question came from.
pub open spec fn answer(prim: LcmcMleUnitdataInd, encoded: BitBuffer) -> SapMsg {
    SapMsg {
        sap: Sap::LcmcSap,
        src: TetraEntity::Cmce,
        dest: TetraEntity::Mle,
        msg: SapMsgInner::LcmcMleUnitdataReq(
            LcmcMleUnitdataReq {
                sdu: BitBuffer { bits: encoded.bits, pos: 0 },
                handle: prim.handle,
                endpoint_id: prim.endpoint_id,
                link_id: prim.link_id,
                layer2service: Layer2Service::Unacknowledged,
                pdu_prio: 0,
                layer2_qos: 0,
                stealing_permission: false,
                stealing_repeats_flag: false,
                chan_alloc: false,
                main_address: TetraAddress {
                    ssi: prim.received_tetra_address.ssi,
                    ssi_type: SsiType::Issi,
                },
                tx_reporter: false,
            },
        ),
    }
}

/// Supplementary services sub-entity.
pub struct SsBsSubentity {}

impl SsBsSubentity {
    pub fn new() -> (s: SsBsSubentity)
        ensures
            s == (SsBsSubentity {  }),
    {
        SsBsSubentity {  }
    }

    /// The PDU that answers a message; none where the message is no received PDU, which is a
    /// routing error.
    pub fn response(&self, message: &SapMsg) -> (r: Option<CmceFunctionNotSupported>)
        ensures
            r == (if message.msg is LcmcMleUnitdataInd {
                Some(not_supported())
            } else {
                None
            }),
    {
        match &message.msg {
            SapMsgInner::LcmcMleUnitdataInd(_) => Some(
                CmceFunctionNotSupported {
                    not_supported_pdu_type: CmcePduTypeUl::UFacility,
                    call_identifier_present: false,
                    call_identifier: None,
                    function_not_supported_pointer: 0,
                    length_of_received_pdu_extract: None,
                    received_pdu_extract: None,
                },
            ),
            _ => None,
        }
    }

    /// Queues the answer to a received PDU, given what came of encoding it. Nothing is queued
    /// where the encoding failed, nor for any other message.
    pub fn route_re_deliver(
        &mut self,
        queue: &mut MessageQueue,
        message: SapMsg,
        encoded: Result<BitBuffer, String>,
    )
        ensures
            final(queue)@ == (match (message.msg, encoded) {
                (SapMsgInner::LcmcMleUnitdataInd(prim), Ok(sdu)) => old(queue)@.push(
                    answer(prim, sdu),
                ),
                _ => old(queue)@,
            }),
    {
        if let SapMsgInner::LcmcMleUnitdataInd(prim) = message.msg {
            if let Ok(sdu) = encoded {
                let mut sdu = sdu;
                sdu.seek(0);
                queue.push_back(
                    SapMsg {
                        sap: Sap::LcmcSap,
                        src: TetraEntity::Cmce,
                        dest: TetraEntity::Mle,
                        msg: SapMsgInner::LcmcMleUnitdataReq(
                            LcmcMleUnitdataReq {
                                sdu,
                                handle: prim.handle,
                                endpoint_id: prim.endpoint_id,
                                link_id: prim.link_id,
                                layer2service: Layer2Service::Unacknowledged,
                                pdu_prio: 0,
                                layer2_qos: 0,
                                stealing_permission: false,
                                stealing_repeats_flag: false,
                                chan_alloc: false,
                                main_address: TetraAddress {
                                    ssi: prim.received_tetra_address.ssi,
                                    ssi_type: SsiType::Issi,
                                },
                                tx_reporter: false,
                            },
                        ),
                    },
                );
            }
        }
    }
}

/// Whoever asks is answered: the answer goes to the subscriber, the handle, the endpoint and the
/// link that the question came from, unacknowledged and at the lowest priority, and carries the
/// bits it was encoded as from their beginning. It says that U-FACILITY itself is not supported,
/// and names neither a call nor a part of the question.
pub proof fn law_answer(prim: LcmcMleUnitdataInd, encoded: BitBuffer)
    ensures
        ({
            let a = answer(prim, encoded);
            &&& a.sap is LcmcSap && a.src is Cmce && a.dest is Mle
            &&& a.msg matches SapMsgInner::LcmcMleUnitdataReq(req) && {
                &&& req.sdu.bits == encoded.bits
                &&& req.sdu.pos == 0
                &&& req.handle == prim.handle
                &&& req.endpoint_id == prim.endpoint_id
                &&& req.link_id == prim.link_id
                &&& req.main_address.ssi == prim.received_tetra_address.ssi
                &&& req.main_address.ssi_type is Issi
                &&& req.layer2service is Unacknowledged
                &&& req.pdu_prio == 0 && req.layer2_qos == 0
                &&& !req.stealing_permission && !req.stealing_repeats_flag
                &&& !req.chan_alloc && !req.tx_reporter
            }
        }),
        not_supported().not_supported_pdu_type is UFacility,
        not_supported().function_not_supported_pointer == 0,
        !not_supported().call_identifier_present && not_supported().call_identifier is None,
        not_supported().length_of_received_pdu_extract is None,
        not_supported().received_pdu_extract is None,
{
}

} // verus!
