//! Host side of the optional exact CUDA contraction backend.
//!
//! The library stays the source of truth for the explicit Sec. VI tensors: it
//! compiles the validated row operator into the descriptor handed to the
//! device, checks the layout of the exchanged records, and validates what the
//! device reports before turning it into a result. The device calls themselves
//! belong to the front end.
use vstd::prelude::*;

use crate::contract::{ContractionResult, LayerMetric};
use crate::row::{CompiledRowOperator, occupied_entry};
use crate::tensor::{SiteTensorC, sec_vi_c};
use crate::util::{add_durations, decimal, message, message_with_number};
use std::time::Duration;
use vstd::string::StringExecFns;

verus! {

/// Device code of the 64-bit compact arithmetic scheme.
pub const SCHEME_COMPACT64: u32 = 1;

/// Device code of the 128-bit wide arithmetic scheme.
pub const SCHEME_WIDE128: u32 = 2;

/// Arithmetic scheme of the device contraction.
#[derive(Clone, Copy, Debug, PartialEq, Eq, Structural)]
pub enum GpuScheme {
    Auto,
    Compact64,
    Wide128,
}

/// The name of a scheme on the command line.
pub open spec fn scheme_text(scheme: GpuScheme) -> Seq<char> {
    match scheme {
        GpuScheme::Auto => "auto"@,
        GpuScheme::Compact64 => "compact64"@,
        GpuScheme::Wide128 => "wide128"@,
    }
}

/// The scheme that runs a board of side `n` when `scheme` is requested, or
/// `None` when the request cannot be exact: packed boundaries hold `n <= 42`,
/// and the compact scheme is exact only for `n <= 20`.
pub open spec fn resolved_scheme(scheme: GpuScheme, n: nat) -> Option<GpuScheme> {
    if n > 42 {
        None
    } else {
        match scheme {
            GpuScheme::Auto => if n <= 20 {
                Some(GpuScheme::Compact64)
            } else {
                Some(GpuScheme::Wide128)
            },
            GpuScheme::Compact64 => if n > 20 {
                None
            } else {
                Some(GpuScheme::Compact64)
            },
            GpuScheme::Wide128 => Some(GpuScheme::Wide128),
        }
    }
}

/// Distinct schemes have distinct names.
pub proof fn lemma_scheme_text_injective(a: GpuScheme, b: GpuScheme)
    ensures
        scheme_text(a) == scheme_text(b) ==> a == b,
{
    reveal_strlit("auto");
    reveal_strlit("compact64");
    reveal_strlit("wide128");
    assert("auto"@ != "compact64"@) by {
        assert("auto"@.len() != "compact64"@.len());
    }
    assert("auto"@ != "wide128"@) by {
        assert("auto"@.len() != "wide128"@.len());
    }
    assert("compact64"@ != "wide128"@) by {
        assert("compact64"@.len() != "wide128"@.len());
    }
}

/// Error of the device backend.
#[derive(Clone, Debug, PartialEq, Eq)]
pub enum GpuError {
    InvalidArgument(String),
    Backend(String),
    Abi(String),
}

impl GpuError {
    /// The text of the error as the front end prints it.
    pub fn describe(&self) -> (text: String)
        ensures
            text@ == match self {
                GpuError::InvalidArgument(m) => "invalid GPU argument: "@ + m@,
                GpuError::Backend(m) => "CUDA backend error: "@ + m@,
                GpuError::Abi(m) => "CUDA ABI error: "@ + m@,
            },
    {
        match self {
            GpuError::InvalidArgument(m) => message("invalid GPU argument: ").concat(m.as_str()),
            GpuError::Backend(m) => message("CUDA backend error: ").concat(m.as_str()),
            GpuError::Abi(m) => message("CUDA ABI error: ").concat(m.as_str()),
        }
    }
}

/// Formats `prefix`, the `Debug` form of `value` and `suffix` with
/// `std::format!`. The text is not stated.
#[verifier::external_body]
fn quoted_message(prefix: &str, value: &str, suffix: &str) -> String {
    format!("{prefix}{value:?}{suffix}")
}

impl GpuScheme {
    pub fn as_str(self) -> (text: &'static str)
        ensures
            text@ == scheme_text(self),
    {
        match self {
            GpuScheme::Auto => "auto",
            GpuScheme::Compact64 => "compact64",
            GpuScheme::Wide128 => "wide128",
        }
    }

    /// The scheme named `value`; any other text is an invalid argument.
    pub fn parse(value: &str) -> (parsed: Result<Self, GpuError>)
        ensures
            parsed matches Ok(scheme) ==> scheme_text(scheme) == value@,
            parsed is Ok <==> exists|scheme: GpuScheme| scheme_text(scheme) == value@,
            parsed matches Err(e) ==> e is InvalidArgument,
    {
        let text = value.to_owned();
        if text == message("auto") {
            assert(scheme_text(GpuScheme::Auto) == value@);
            Ok(GpuScheme::Auto)
        } else if text == message("compact64") {
            assert(scheme_text(GpuScheme::Compact64) == value@);
            Ok(GpuScheme::Compact64)
        } else if text == message("wide128") {
            assert(scheme_text(GpuScheme::Wide128) == value@);
            Ok(GpuScheme::Wide128)
        } else {
            assert forall|scheme: GpuScheme| scheme_text(scheme) != value@ by {
                match scheme {
                    GpuScheme::Auto => {},
                    GpuScheme::Compact64 => {},
                    GpuScheme::Wide128 => {},
                }
            }
            Err(
                GpuError::InvalidArgument(
                    quoted_message(
                        "unknown GPU scheme ",
                        value,
                        "; expected auto, compact64, or wide128",
                    ),
                ),
            )
        }
    }

    /// The concrete scheme for a board of side `n`.
    pub fn resolve(self, n: usize) -> (resolved: Result<Self, GpuError>)
        ensures
            resolved matches Ok(scheme) ==> resolved_scheme(self, n as nat) == Some(scheme),
            resolved is Err <==> resolved_scheme(self, n as nat) is None,
            resolved matches Err(e) ==> e is InvalidArgument,
            n > 42 ==> (resolved matches Err(GpuError::InvalidArgument(m)) && m@
                == "wide128 packed boundaries support N <= 42"@),
            n <= 42 && self == GpuScheme::Compact64 && n > 20 ==> (resolved matches Err(
                GpuError::InvalidArgument(m),
            ) && m@ == "compact64 is exact only for N <= 20"@),
    {
        if n > 42 {
            return Err(GpuError::InvalidArgument(message("wide128 packed boundaries support N <= 42")));
        }
        match self {
            GpuScheme::Auto => if n <= 20 {
                Ok(GpuScheme::Compact64)
            } else {
                Ok(GpuScheme::Wide128)
            },
            GpuScheme::Compact64 => if n > 20 {
                Err(GpuError::InvalidArgument(message("compact64 is exact only for N <= 20")))
            } else {
                Ok(GpuScheme::Compact64)
            },
            GpuScheme::Wide128 => Ok(GpuScheme::Wide128),
        }
    }

    /// The device code of a resolved scheme.
    pub fn ffi_code(self) -> (code: u32)
        requires
            self != GpuScheme::Auto,
        ensures
            self == GpuScheme::Compact64 ==> code == SCHEME_COMPACT64,
            self == GpuScheme::Wide128 ==> code == SCHEME_WIDE128,
    {
        match self {
            GpuScheme::Compact64 => SCHEME_COMPACT64,
            _ => SCHEME_WIDE128,
        }
    }
}

/// Options of a device contraction.
#[derive(Clone, Copy, Debug)]
pub struct GpuOptions {
    pub device_id: u32,
    pub scheme: GpuScheme,
    pub memory_limit_percent: u32,
}

impl Default for GpuOptions {
    fn default() -> (options: Self)
        ensures
            options.device_id == 0,
            options.scheme == GpuScheme::Auto,
            options.memory_limit_percent == 85,
    {
        GpuOptions { device_id: 0, scheme: GpuScheme::Auto, memory_limit_percent: 85 }
    }
}

/// What the device reports of itself.
#[derive(Clone, Debug)]
pub struct GpuDeviceInfo {
    pub device_id: u32,
    pub name: String,
    pub compute_major: u32,
    pub compute_minor: u32,
    pub cuda_driver_version: u32,
    pub cuda_runtime_version: u32,
    pub multiprocessor_count: u32,
    pub total_global_memory: u64,
}

/// One row of a device contraction.
#[derive(Debug)]
pub struct GpuLayerMetric {
    pub row: usize,
    pub input_states: usize,
    pub row_operator_candidates: u128,
    pub row_operator_matched: u128,
    pub completed_row_terms: u128,
    pub output_states: usize,
    pub output_weight: u128,
    pub count_scan: Duration,
    pub expansion: Duration,
    pub sort: Duration,
    pub run_length: Duration,
    pub reduction: Duration,
    pub metric: Duration,
    pub peak_device_bytes: u64,
}

/// A complete device contraction.
#[derive(Debug)]
pub struct GpuContractionResult {
    pub n: usize,
    pub count: u128,
    pub scheme: GpuScheme,
    pub device: GpuDeviceInfo,
    pub host_elapsed: Duration,
    pub gpu_elapsed: Duration,
    pub peak_host_rss_bytes: u64,
    pub peak_device_bytes: u64,
    pub peak_states: usize,
    pub tensor_entries_examined: u128,
    pub tensor_entries_matched: u128,
    pub row_operator_candidates: u128,
    pub row_operator_matched: u128,
    pub layers: Vec<GpuLayerMetric>,
}

/// `std::time::Duration::from_nanos`. Nothing is stated of the duration:
/// `Duration` is opaque here.
#[verifier::external_body]
fn duration_from_nanos(nanos: u64) -> Duration {
    Duration::from_nanos(nanos)
}

/// The host-side fields of a device layer in the shape of a CPU layer.
pub open spec fn common_layer_matches(cpu: LayerMetric, gpu: GpuLayerMetric) -> bool {
    &&& cpu.row == gpu.row
    &&& cpu.input_states == gpu.input_states
    &&& cpu.tensor_entries_examined == 0
    &&& cpu.tensor_entries_matched == 0
    &&& cpu.row_operator_candidates == gpu.row_operator_candidates
    &&& cpu.row_operator_matched == gpu.row_operator_matched
    &&& cpu.completed_row_terms == gpu.completed_row_terms
    &&& cpu.output_states == gpu.output_states
    &&& cpu.output_weight == gpu.output_weight
    &&& cpu.peak_rss_bytes == 0
}

impl GpuContractionResult {
    /// Convert common fields to the CPU result shape for validation helpers.
    /// GPU phase timings and device allocation metrics remain available on
    /// this value and are intentionally not hidden in the CPU RSS field.
    pub fn common_result(&self) -> (result: ContractionResult)
        ensures
            result.n == self.n,
            result.count == self.count,
            result.peak_states == self.peak_states,
            result.tensor_entries_examined == self.tensor_entries_examined,
            result.tensor_entries_matched == self.tensor_entries_matched,
            result.row_operator_candidates == self.row_operator_candidates,
            result.row_operator_matched == self.row_operator_matched,
            result.peak_rss_bytes == self.peak_host_rss_bytes,
            result.layers@.len() == self.layers@.len(),
            forall|i: int|
                0 <= i < self.layers@.len() ==> common_layer_matches(
                    #[trigger] result.layers@[i],
                    self.layers@[i],
                ),
    {
        let mut layers: Vec<LayerMetric> = Vec::new();
        let mut i: usize = 0;
        while i < self.layers.len()
            invariant
                i <= self.layers@.len(),
                layers@.len() == i,
                forall|k: int| 0 <= k < i ==> common_layer_matches(#[trigger] layers@[k], self.layers@[k]),
            decreases self.layers@.len() - i,
        {
            let layer = &self.layers[i];
            let mut elapsed = add_durations(layer.count_scan, layer.expansion);
            elapsed = add_durations(elapsed, layer.sort);
            elapsed = add_durations(elapsed, layer.run_length);
            elapsed = add_durations(elapsed, layer.reduction);
            elapsed = add_durations(elapsed, layer.metric);
            layers.push(
                LayerMetric {
                    row: layer.row,
                    input_states: layer.input_states,
                    tensor_entries_examined: 0,
                    tensor_entries_matched: 0,
                    row_operator_candidates: layer.row_operator_candidates,
                    row_operator_matched: layer.row_operator_matched,
                    completed_row_terms: layer.completed_row_terms,
                    output_states: layer.output_states,
                    output_weight: layer.output_weight,
                    elapsed,
                    peak_rss_bytes: 0,
                },
            );
            i = i + 1;
        }
        ContractionResult {
            n: self.n,
            count: self.count,
            elapsed: self.host_elapsed,
            peak_states: self.peak_states,
            tensor_entries_examined: self.tensor_entries_examined,
            tensor_entries_matched: self.tensor_entries_matched,
            row_operator_candidates: self.row_operator_candidates,
            row_operator_matched: self.row_operator_matched,
            peak_rss_bytes: self.peak_host_rss_bytes,
            layers,
        }
    }
}

/// The 64-bit limbs of a 128-bit value, low limb first.
pub fn limbs(value: u128) -> (parts: (u64, u64))
    ensures
        parts.0 == value % 0x1_0000_0000_0000_0000,
        parts.1 == value / 0x1_0000_0000_0000_0000,
{
    let low = (value & 0xffff_ffff_ffff_ffff) as u64;
    let high = (value >> 64u32) as u64;
    assert(value & 0xffff_ffff_ffff_ffff == value % 0x1_0000_0000_0000_0000) by (bit_vector);
    assert(value >> 64u32 == value / 0x1_0000_0000_0000_0000) by (bit_vector);
    (low, high)
}

/// The 128-bit value with the given 64-bit limbs.
pub fn from_limbs(low: u64, high: u64) -> (value: u128)
    ensures
        value == low + high * 0x1_0000_0000_0000_0000,
{
    let wide_low = low as u128;
    let wide_high = high as u128;
    assert(wide_low | (wide_high << 64u32) == wide_low + wide_high * 0x1_0000_0000_0000_0000)
        by (bit_vector)
        requires
            wide_low < 0x1_0000_0000_0000_0000,
            wide_high < 0x1_0000_0000_0000_0000,
    ;
    wide_low | (wide_high << 64u32)
}

/// Splitting a value into limbs and joining them gives the value back.
pub proof fn lemma_limbs_round_trip(value: u128)
    ensures
        (value % 0x1_0000_0000_0000_0000) + (value / 0x1_0000_0000_0000_0000) * 0x1_0000_0000_0000_0000
            == value,
{
}


/// The row operator as handed to the device: the legs and coefficient of the
/// occupied entry of `C`, with the tensor work counters.
#[derive(Clone, Copy, Debug, PartialEq, Eq, Structural)]
pub struct TransitionDescriptor {
    pub column_in: u32,
    pub column_out: u32,
    pub row_in: u32,
    pub row_out: u32,
    pub diag_dr_in: u32,
    pub diag_dr_out: u32,
    pub diag_dl_in: u32,
    pub diag_dl_out: u32,
    pub value_lo: u64,
    pub value_hi: u64,
    pub tensor_entries_examined: u64,
    pub tensor_entries_matched: u64,
}

/// The descriptor of the Sec. VI row operator.
pub open spec fn sec_vi_descriptor() -> TransitionDescriptor {
    let occupied = occupied_entry();
    TransitionDescriptor {
        column_in: occupied.legs.column_in as u32,
        column_out: occupied.legs.column_out as u32,
        row_in: occupied.legs.row_in as u32,
        row_out: occupied.legs.row_out as u32,
        diag_dr_in: occupied.legs.diag_dr_in as u32,
        diag_dr_out: occupied.legs.diag_dr_out as u32,
        diag_dl_in: occupied.legs.diag_dl_in as u32,
        diag_dl_out: occupied.legs.diag_dl_out as u32,
        value_lo: (occupied.value % 0x1_0000_0000_0000_0000) as u64,
        value_hi: (occupied.value / 0x1_0000_0000_0000_0000) as u64,
        tensor_entries_examined: 17,
        tensor_entries_matched: 17,
    }
}

/// Compile the explicit `C` into the descriptor of its row operator. It fails
/// closed when `C` does not hold exactly the seventeen Sec. VI entries.
pub fn compile_descriptor() -> (descriptor: Result<TransitionDescriptor, GpuError>)
    ensures
        descriptor == Ok::<TransitionDescriptor, GpuError>(sec_vi_descriptor()),
{
    let tensor = SiteTensorC::sec_vi();
    if tensor.entries().len() != 17 {
        return Err(GpuError::Abi(message_with_number("explicit C entries other than 17:", tensor.entries().len() as u128)));
    }
    let operator = match CompiledRowOperator::compile(&tensor) {
        Ok(operator) => operator,
        Err(e) => {
            return Err(GpuError::Abi(e));
        },
    };
    let occupied = operator.occupied();
    let (value_lo, value_hi) = limbs(occupied.value);
    Ok(
        TransitionDescriptor {
            column_in: occupied.legs.column_in as u32,
            column_out: occupied.legs.column_out as u32,
            row_in: occupied.legs.row_in as u32,
            row_out: occupied.legs.row_out as u32,
            diag_dr_in: occupied.legs.diag_dr_in as u32,
            diag_dr_out: occupied.legs.diag_dr_out as u32,
            diag_dl_in: occupied.legs.diag_dl_in as u32,
            diag_dl_out: occupied.legs.diag_dl_out as u32,
            value_lo,
            value_hi,
            tensor_entries_examined: 17,
            tensor_entries_matched: 17,
        },
    )
}

/// Sizes and alignments of the records exchanged with the device, as the
/// front end measures them.
#[derive(Clone, Copy, Debug)]
pub struct AbiLayout {
    pub transition_descriptor_size: usize,
    pub options_size: usize,
    pub layer_metric_size: usize,
    pub run_result_size: usize,
    pub device_info_size: usize,
    pub run_result_align: usize,
    pub layer_metric_align: usize,
}

/// The layout that the device code was built for.
pub open spec fn abi_layout_ok(layout: AbiLayout) -> bool {
    &&& layout.transition_descriptor_size == 64
    &&& layout.options_size == 16
    &&& layout.layer_metric_size == 120
    &&& layout.run_result_size == 760
    &&& layout.device_info_size == 680
    &&& layout.run_result_align == 8
    &&& layout.layer_metric_align == 8
}

/// Formats a size mismatch of the record `name` with `std::format!`:
/// `name`, " size is ", `actual` in decimal, ", expected " and `required` in
/// decimal.
#[verifier::external_body]
fn size_mismatch_message(name: &str, actual: usize, required: usize) -> (text: String)
    ensures
        text@ == name@ + " size is "@ + decimal(actual as nat) + ", expected "@ + decimal(required as nat),
{
    format!("{name} size is {actual}, expected {required}")
}

/// Check the measured record layout against the device's; fail closed on any
/// difference.
pub fn validate_abi(layout: &AbiLayout) -> (checked: Result<(), GpuError>)
    ensures
        checked is Ok <==> abi_layout_ok(*layout),
        checked matches Err(e) ==> e is Abi,
        layout.transition_descriptor_size != 64 ==> (checked matches Err(GpuError::Abi(m)) && m@
            == "TransitionDescriptorFfi"@ + " size is "@ + decimal(layout.transition_descriptor_size as nat)
            + ", expected "@ + decimal(64)),
{
    if layout.transition_descriptor_size != 64 {
        return Err(GpuError::Abi(size_mismatch_message("TransitionDescriptorFfi", layout.transition_descriptor_size, 64)));
    }
    if layout.options_size != 16 {
        return Err(GpuError::Abi(size_mismatch_message("OptionsFfi", layout.options_size, 16)));
    }
    if layout.layer_metric_size != 120 {
        return Err(GpuError::Abi(size_mismatch_message("LayerMetricFfi", layout.layer_metric_size, 120)));
    }
    if layout.run_result_size != 760 {
        return Err(GpuError::Abi(size_mismatch_message("RunResultFfi", layout.run_result_size, 760)));
    }
    if layout.device_info_size != 680 {
        return Err(GpuError::Abi(size_mismatch_message("DeviceInfoFfi", layout.device_info_size, 680)));
    }
    if layout.run_result_align != 8 || layout.layer_metric_align != 8 {
        return Err(GpuError::Abi(message("CUDA FFI result structures require 8-byte alignment")));
    }
    Ok(())
}

/// Formats a field that does not fit `usize` with `std::format!`: `label`,
/// "=", `value` in decimal and " does not fit usize".
#[verifier::external_body]
fn field_overflow_message(label: &str, value: u64) -> (text: String)
    ensures
        text@ == label@ + "="@ + decimal(value as nat) + " does not fit usize"@,
{
    format!("{label}={value} does not fit usize")
}

/// A device counter as a `usize`; an ABI error when it does not fit.
pub fn usize_field(value: u64, label: &str) -> (field: Result<usize, GpuError>)
    ensures
        field is Ok <==> value <= usize::MAX,
        field matches Ok(v) ==> v == value,
        field matches Err(e) ==> e is Abi,
        field matches Err(GpuError::Abi(m)) ==> m@ == label@ + "="@ + decimal(value as nat) + " does not fit usize"@,
{
    if value as u128 > usize::MAX as u128 {
        return Err(GpuError::Abi(field_overflow_message(label, value)));
    }
    Ok(value as usize)
}

/// The length of the text in a NUL-terminated buffer: up to the first zero
/// byte, or the whole buffer when it holds none.
pub open spec fn nul_terminated_len(bytes: Seq<u8>) -> nat
    decreases bytes.len(),
{
    if bytes.len() == 0 {
        0
    } else if bytes[0] == 0 {
        0
    } else {
        1 + nul_terminated_len(bytes.drop_first())
    }
}

/// The characters of ASCII bytes.
pub open spec fn ascii_chars(bytes: Seq<u8>) -> Seq<char> {
    bytes.map_values(|b: u8| b as char)
}

/// `String::from_utf8_lossy(bytes).into_owned()`. Stated: ASCII bytes are valid
/// UTF-8 and decode to one character each; what other bytes decode to is not
/// stated.
#[verifier::external_body]
fn utf8_lossy(bytes: &[u8]) -> (text: String)
    ensures
        (forall|i: int| 0 <= i < bytes@.len() ==> #[trigger] bytes@[i] < 128) ==> text@ == ascii_chars(
            bytes@,
        ),
{
    String::from_utf8_lossy(bytes).into_owned()
}

/// The text of a NUL-terminated buffer filled by the device.
pub fn ffi_string(bytes: &[u8]) -> (text: String)
    ensures
        ({
            let prefix = bytes@.subrange(0, nul_terminated_len(bytes@) as int);
            (forall|i: int| 0 <= i < prefix.len() ==> #[trigger] prefix[i] < 128) ==> text@
                == ascii_chars(prefix)
        }),
{
    let mut length: usize = 0;
    assert(bytes@.subrange(0, bytes@.len() as int) =~= bytes@);
    while length < bytes.len() && bytes[length] != 0
        invariant
            length <= bytes@.len(),
            forall|i: int| 0 <= i < length ==> bytes@[i] != 0,
            nul_terminated_len(bytes@) == length + nul_terminated_len(bytes@.subrange(length as int, bytes@.len() as int)),
        decreases bytes@.len() - length,
    {
        assert(bytes@.subrange(length as int, bytes@.len() as int).drop_first() =~= bytes@.subrange(length + 1, bytes@.len() as int));
        length = length + 1;
    }
    proof {
        if length < bytes@.len() {
            assert(bytes@.subrange(length as int, bytes@.len() as int)[0] == bytes@[length as int]);
        }
    }
    let prefix = slice_prefix(bytes, length);
    utf8_lossy(prefix)
}

/// The first `length` bytes of `bytes`.
fn slice_prefix(bytes: &[u8], length: usize) -> (prefix: &[u8])
    requires
        length <= bytes@.len(),
    ensures
        prefix@ == bytes@.subrange(0, length as int),
{
    let (head, _) = bytes.split_at(length);
    head
}


/// What the front end hands the device for one contraction.
#[derive(Clone, Copy, Debug)]
pub struct GpuRunPlan {
    pub n: u32,
    pub scheme: GpuScheme,
    pub scheme_code: u32,
    pub device_id: u32,
    pub memory_limit_percent: u32,
    pub descriptor: TransitionDescriptor,
}

/// The device code of a resolved scheme.
pub open spec fn scheme_code(scheme: GpuScheme) -> u32 {
    if scheme == GpuScheme::Compact64 {
        SCHEME_COMPACT64
    } else {
        SCHEME_WIDE128
    }
}

/// Check the options of a device contraction of a board of side `n` and
/// prepare what is handed to the device.
pub fn plan_gpu_run(n: usize, options: GpuOptions) -> (plan: Result<GpuRunPlan, GpuError>)
    ensures
        plan is Ok <==> (1 <= options.memory_limit_percent <= 95 && resolved_scheme(
            options.scheme,
            n as nat,
        ) is Some),
        plan matches Ok(p) ==> {
            &&& p.n == n
            &&& resolved_scheme(options.scheme, n as nat) == Some(p.scheme)
            &&& p.scheme_code == scheme_code(p.scheme)
            &&& p.device_id == options.device_id
            &&& p.memory_limit_percent == options.memory_limit_percent
            &&& p.descriptor == sec_vi_descriptor()
        },
        plan matches Err(e) ==> e is InvalidArgument,
        !(1 <= options.memory_limit_percent <= 95) ==> (plan matches Err(GpuError::InvalidArgument(m)) && m@
            == "memory_limit_percent must be in 1..=95"@),
        1 <= options.memory_limit_percent <= 95 && n > 42 ==> (plan matches Err(GpuError::InvalidArgument(m))
            && m@ == "wide128 packed boundaries support N <= 42"@),
        1 <= options.memory_limit_percent <= 95 && n <= 42 && options.scheme == GpuScheme::Compact64 && n > 20
            ==> (plan matches Err(GpuError::InvalidArgument(m)) && m@ == "compact64 is exact only for N <= 20"@),
{
    if options.memory_limit_percent < 1 || options.memory_limit_percent > 95 {
        return Err(GpuError::InvalidArgument(message("memory_limit_percent must be in 1..=95")));
    }
    let scheme = match options.scheme.resolve(n) {
        Ok(scheme) => scheme,
        Err(e) => {
            return Err(e);
        },
    };
    let descriptor = match compile_descriptor() {
        Ok(descriptor) => descriptor,
        Err(e) => {
            return Err(e);
        },
    };
    Ok(
        GpuRunPlan {
            n: n as u32,
            scheme,
            scheme_code: scheme.ffi_code(),
            device_id: options.device_id,
            memory_limit_percent: options.memory_limit_percent,
            descriptor,
        },
    )
}

/// The summary record that the device fills.
#[derive(Clone, Copy, Debug)]
pub struct RawRunResult {
    pub n: u32,
    pub scheme: u32,
    pub device_id: u32,
    pub compute_major: u32,
    pub compute_minor: u32,
    pub count_lo: u64,
    pub count_hi: u64,
    pub host_elapsed_ns: u64,
    pub gpu_elapsed_ns: u64,
    pub peak_device_bytes: u64,
    pub peak_states: u64,
    pub tensor_entries_examined: u64,
    pub tensor_entries_matched: u64,
    pub row_operator_candidates: u64,
    pub row_operator_matched: u64,
    pub layer_count: u64,
}

/// The record of one row that the device fills.
#[derive(Clone, Copy, Debug)]
pub struct RawLayerMetric {
    pub row: u64,
    pub input_states: u64,
    pub row_operator_candidates: u64,
    pub row_operator_matched: u64,
    pub completed_row_terms: u64,
    pub output_states: u64,
    pub output_weight_lo: u64,
    pub output_weight_hi: u64,
    pub count_scan_ns: u64,
    pub expansion_ns: u64,
    pub sort_ns: u64,
    pub run_length_ns: u64,
    pub reduction_ns: u64,
    pub metric_ns: u64,
    pub peak_device_bytes: u64,
}

/// The counters of a device row fit the host's `usize`.
pub open spec fn raw_layer_fits(raw: RawLayerMetric) -> bool {
    raw.row <= usize::MAX && raw.input_states <= usize::MAX && raw.output_states <= usize::MAX
}

/// A host layer carries the counters of the device row.
pub open spec fn layer_from_raw(layer: GpuLayerMetric, raw: RawLayerMetric) -> bool {
    &&& layer.row == raw.row
    &&& layer.input_states == raw.input_states
    &&& layer.row_operator_candidates == raw.row_operator_candidates
    &&& layer.row_operator_matched == raw.row_operator_matched
    &&& layer.completed_row_terms == raw.completed_row_terms
    &&& layer.output_states == raw.output_states
    &&& layer.output_weight == raw.output_weight_lo + raw.output_weight_hi * 0x1_0000_0000_0000_0000
    &&& layer.peak_device_bytes == raw.peak_device_bytes
}

/// The device answered the plan on the probed device, with one record per row.
pub open spec fn run_matches(plan: GpuRunPlan, device: GpuDeviceInfo, raw: RawRunResult) -> bool {
    &&& raw.n == plan.n
    &&& raw.scheme == plan.scheme_code
    &&& raw.device_id == device.device_id
    &&& raw.compute_major == device.compute_major
    &&& raw.compute_minor == device.compute_minor
    &&& raw.layer_count == plan.n
}

/// Validate what the device reported for `plan` and turn it into a result;
/// any disagreement with the plan or the probed device is an ABI error.
pub fn finish_gpu_run(
    plan: &GpuRunPlan,
    device: GpuDeviceInfo,
    raw: &RawRunResult,
    raw_layers: &Vec<RawLayerMetric>,
    peak_host_rss_bytes: u64,
) -> (result: Result<GpuContractionResult, GpuError>)
    requires
        raw_layers@.len() == plan.n,
    ensures
        result is Ok <==> (run_matches(*plan, device, *raw) && (forall|i: int|
            0 <= i < raw_layers@.len() ==> raw_layer_fits(#[trigger] raw_layers@[i]))
            && raw.peak_states <= usize::MAX),
        result matches Ok(r) ==> {
            &&& r.n == plan.n
            &&& r.count == raw.count_lo + raw.count_hi * 0x1_0000_0000_0000_0000
            &&& r.scheme == plan.scheme
            &&& r.device == device
            &&& r.peak_host_rss_bytes == peak_host_rss_bytes
            &&& r.peak_device_bytes == raw.peak_device_bytes
            &&& r.peak_states == raw.peak_states
            &&& r.tensor_entries_examined == raw.tensor_entries_examined
            &&& r.tensor_entries_matched == raw.tensor_entries_matched
            &&& r.row_operator_candidates == raw.row_operator_candidates
            &&& r.row_operator_matched == raw.row_operator_matched
            &&& r.layers@.len() == raw_layers@.len()
            &&& forall|i: int|
                0 <= i < raw_layers@.len() ==> layer_from_raw(#[trigger] r.layers@[i], raw_layers@[i])
        },
        result matches Err(e) ==> e is Abi,
{
    if raw.n != plan.n || raw.scheme != plan.scheme_code {
        return Err(GpuError::Abi(message("CUDA returned mismatched N or arithmetic scheme")));
    }
    if raw.device_id != device.device_id || raw.compute_major != device.compute_major
        || raw.compute_minor != device.compute_minor {
        return Err(GpuError::Abi(message("CUDA contraction device does not match the probed device")));
    }
    if raw.layer_count != plan.n as u64 {
        return Err(GpuError::Abi(message_with_number("CUDA returned a layer count other than N:", raw.layer_count as u128)));
    }
    let mut layers: Vec<GpuLayerMetric> = Vec::new();
    let mut i: usize = 0;
    while i < raw_layers.len()
        invariant
            i <= raw_layers@.len(),
            layers@.len() == i,
            forall|k: int| 0 <= k < i ==> raw_layer_fits(#[trigger] raw_layers@[k]),
            forall|k: int| 0 <= k < i ==> layer_from_raw(#[trigger] layers@[k], raw_layers@[k]),
        decreases raw_layers@.len() - i,
    {
        let layer = raw_layers[i];
        let row = match usize_field(layer.row, "row") {
            Ok(v) => v,
            Err(e) => {
                return Err(e);
            },
        };
        let input_states = match usize_field(layer.input_states, "input_states") {
            Ok(v) => v,
            Err(e) => {
                return Err(e);
            },
        };
        let output_states = match usize_field(layer.output_states, "output_states") {
            Ok(v) => v,
            Err(e) => {
                return Err(e);
            },
        };
        layers.push(
            GpuLayerMetric {
                row,
                input_states,
                row_operator_candidates: layer.row_operator_candidates as u128,
                row_operator_matched: layer.row_operator_matched as u128,
                completed_row_terms: layer.completed_row_terms as u128,
                output_states,
                output_weight: from_limbs(layer.output_weight_lo, layer.output_weight_hi),
                count_scan: duration_from_nanos(layer.count_scan_ns),
                expansion: duration_from_nanos(layer.expansion_ns),
                sort: duration_from_nanos(layer.sort_ns),
                run_length: duration_from_nanos(layer.run_length_ns),
                reduction: duration_from_nanos(layer.reduction_ns),
                metric: duration_from_nanos(layer.metric_ns),
                peak_device_bytes: layer.peak_device_bytes,
            },
        );
        i = i + 1;
    }
    let peak_states = match usize_field(raw.peak_states, "peak_states") {
        Ok(v) => v,
        Err(e) => {
            return Err(e);
        },
    };
    Ok(
        GpuContractionResult {
            n: plan.n as usize,
            count: from_limbs(raw.count_lo, raw.count_hi),
            scheme: plan.scheme,
            device,
            host_elapsed: duration_from_nanos(raw.host_elapsed_ns),
            gpu_elapsed: duration_from_nanos(raw.gpu_elapsed_ns),
            peak_host_rss_bytes,
            peak_device_bytes: raw.peak_device_bytes,
            peak_states,
            tensor_entries_examined: raw.tensor_entries_examined as u128,
            tensor_entries_matched: raw.tensor_entries_matched as u128,
            row_operator_candidates: raw.row_operator_candidates as u128,
            row_operator_matched: raw.row_operator_matched as u128,
            layers,
        },
    )
}

} // verus!
