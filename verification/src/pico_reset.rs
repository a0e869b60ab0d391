//! USB reset interface: which control requests ask for a reboot.

use vstd::prelude::*;

verus! {

/// Class, subclass and protocol of the interface.
pub const RESET_INTERFACE_CLASS: u8 = 0xFF;

pub const RESET_INTERFACE_SUBCLASS: u8 = 0x00;

pub const RESET_INTERFACE_PROTOCOL: u8 = 0x01;

/// Reboot into the boot loader.
pub const RESET_REQUEST_BOOTSEL: u8 = 0x01;

/// Reboot the application.
pub const RESET_REQUEST_FLASH: u8 = 0x02;

/// How to reboot.
#[derive(Clone, Copy, Debug, PartialEq, Eq, Structural)]
pub enum RebootKind {
    /// Into the boot loader.
    BootSel { picoboot_disabled: bool, msd_disabled: bool },
    /// Into the application.
    Normal,
}

/// Type of a control request.
#[derive(Clone, Copy, Debug, PartialEq, Eq, Structural)]
pub enum RequestType {
    Standard,
    Class,
    Vendor,
    Reserved,
}

/// A control request, as far as it matters here.
#[derive(Clone, Copy, Debug, PartialEq, Eq, Structural)]
pub struct ControlRequest {
    pub request_type: RequestType,
    /// It is addressed to an interface.
    pub to_interface: bool,
    /// The low byte is the interface number.
    pub index: u16,
    pub request: u8,
}

/// The reboot a request asks interface `iface` for.
pub open spec fn reboot_asked(iface: u8, r: ControlRequest) -> Option<RebootKind> {
    if (r.request_type == RequestType::Class || r.request_type == RequestType::Vendor)
        && r.to_interface && r.index % 256 == iface {
        if r.request == RESET_REQUEST_BOOTSEL {
            Some(RebootKind::BootSel { picoboot_disabled: false, msd_disabled: false })
        } else if r.request == RESET_REQUEST_FLASH {
            Some(RebootKind::Normal)
        } else {
            None
        }
    } else {
        None
    }
}

/// The reset interface. A reboot is left for the main loop, so that the request can be
/// acknowledged first.
#[derive(Clone, Copy, Debug, PartialEq, Eq, Structural)]
pub struct PicoResetInterface {
    pub iface: u8,
    pub pending: Option<RebootKind>,
}

impl PicoResetInterface {
    /// The interface with number `iface`.
    pub fn new(iface: u8) -> (r: PicoResetInterface)
        ensures
            r == (PicoResetInterface { iface, pending: None }),
    {
        PicoResetInterface { iface, pending: None }
    }

    /// Take a reboot that was asked for.
    pub fn take_pending_reboot(&mut self) -> (r: Option<RebootKind>)
        ensures
            r == old(self).pending,
            *final(self) == (PicoResetInterface { pending: None, ..*old(self) }),
    {
        let r = self.pending;
        self.pending = None;
        r
    }

    /// A control request: true if it is to be accepted, which a request for a reboot is.
    pub fn control_out(&mut self, req: &ControlRequest) -> (accept: bool)
        ensures
            accept == reboot_asked(old(self).iface, *req) is Some,
            *final(self) == if accept {
                PicoResetInterface { pending: reboot_asked(old(self).iface, *req), ..*old(self) }
            } else {
                *old(self)
            },
    {
        let type_ok: bool = match req.request_type {
            RequestType::Class => true,
            RequestType::Vendor => true,
            _ => false,
        };
        if !type_ok || !req.to_interface || (req.index % 256) as u8 != self.iface {
            return false;
        }
        if req.request == RESET_REQUEST_BOOTSEL {
            self.pending = Some(
                RebootKind::BootSel { picoboot_disabled: false, msd_disabled: false },
            );
            true
        } else if req.request == RESET_REQUEST_FLASH {
            self.pending = Some(RebootKind::Normal);
            true
        } else {
            false
        }
    }
}

/// Only a class or vendor request to this interface asks for a reboot: 1 into the boot
/// loader, with both of its interfaces, 2 into the application, and no other.
pub proof fn lemma_reboots(iface: u8, r: ControlRequest)
    ensures
        ({
            let ours = (r.request_type == RequestType::Class || r.request_type
                == RequestType::Vendor) && r.to_interface && r.index % 256 == iface;
            &&& reboot_asked(iface, r) is Some <==> ours && (r.request == 1 || r.request == 2)
            &&& reboot_asked(iface, r) == Some(RebootKind::Normal) <==> ours && r.request == 2
            &&& reboot_asked(iface, r) == Some(
                RebootKind::BootSel { picoboot_disabled: false, msd_disabled: false },
            ) <==> ours && r.request == 1
        }),
{
}

} // verus!
