use vstd::prelude::*;
use vstd::string::*;

verus! {

/// Errors of the Liberty 5 library. Variants that originate in an outside
/// Bluetooth stack carry that stack's rendered message.
#[derive(Clone, Debug, PartialEq, Eq)]
pub enum BleError {
    Bluetooth(String),
    NotFound,
    NotSupported,
    Profile(String),
    InvalidAncMode(String),
    Connection(String),
    Windows(String),
}

/// The user-facing text of each error.
pub open spec fn error_message(e: BleError) -> Seq<char> {
    match e {
        BleError::Bluetooth(s) => "Bluetooth işlemi başarısız: "@ + s@,
        BleError::NotFound => "Liberty 5 cihazı bulunamadı"@,
        BleError::NotSupported => "Bu özellik Liberty 5 profilinde doğrulanmadı"@,
        BleError::Profile(s) => "Profil hatası: "@ + s@,
        BleError::InvalidAncMode(s) => "Geçersiz ANC modu: "@ + s@,
        BleError::Connection(s) => "Bluetooth bağlantısı reddedildi. Telefondaki Soundcore uygulamasını kapatın; Windows'ta cihazı kaldırıp yeniden eşleştirin. Ayrıntı: "@ + s@,
        BleError::Windows(s) => "Windows Bluetooth API hatası: "@ + s@,
    }
}

impl BleError {
    /// Renders the error the way it is shown to the user.
    pub fn message(&self) -> (r: String)
        ensures
            r@ == error_message(*self),
    {
        match self {
            BleError::Bluetooth(s) => String::from_str("Bluetooth işlemi başarısız: ").concat(s.as_str()),
            BleError::NotFound => String::from_str("Liberty 5 cihazı bulunamadı"),
            BleError::NotSupported => String::from_str("Bu özellik Liberty 5 profilinde doğrulanmadı"),
            BleError::Profile(s) => String::from_str("Profil hatası: ").concat(s.as_str()),
            BleError::InvalidAncMode(s) => String::from_str("Geçersiz ANC modu: ").concat(s.as_str()),
            BleError::Connection(s) => String::from_str(
                "Bluetooth bağlantısı reddedildi. Telefondaki Soundcore uygulamasını kapatın; Windows'ta cihazı kaldırıp yeniden eşleştirin. Ayrıntı: ",
            ).concat(s.as_str()),
            BleError::Windows(s) => String::from_str("Windows Bluetooth API hatası: ").concat(s.as_str()),
        }
    }
}

/// Turns an error into the text handed to the user interface.
pub fn user_error(error: &BleError) -> (r: String)
    ensures
        r@ == error_message(*error),
{
    error.message()
}

} // verus!
