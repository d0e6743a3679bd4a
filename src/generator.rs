use vstd::prelude::*;
use crate::encoder::EncodingModes;
use crate::error_correction::CorrectionLevels;
use crate::qr_types::QRSymbolTypes;
use crate::encoder::{encode_spec, Encoder};
use crate::error_correction::ErrorCorrector;
use crate::painter::{side, ImageBuilder, ModuleGrid, DARK, LIGHT};
use crate::qr_errors::{EncodingError, ErrorKind};
use crate::sizer::{micro_version_result, standard_version_result, supported, Sizer};

verus! {

/// What the caller asks for; what is left out is chosen.
#[derive(Clone, Copy, Debug)]
pub struct Options {
    pub qr_type: Option<QRSymbolTypes>,
    pub version: Option<u32>,
    pub mode: Option<EncodingModes>,
    pub correction_level: Option<CorrectionLevels>,
}

/// Encodes payloads into symbols.
pub struct QRGenerator {
    pub options: Options,
}

/// The options with the defaults filled in: a Standard symbol at level Q.
pub open spec fn with_defaults(options: Options) -> Options {
    Options {
        qr_type: Some(
            match options.qr_type {
                Some(k) => k,
                None => QRSymbolTypes::QRCode,
            },
        ),
        correction_level: Some(
            match options.correction_level {
                Some(l) => l,
                None => CorrectionLevels::Q,
            },
        ),
        ..options
    }
}

impl QRGenerator {
    /// A generator for Standard symbols at level Q, the rest chosen.
    pub fn default() -> (r: Self)
        ensures
            r.options == (Options { qr_type: None, version: None, mode: None, correction_level: Some(CorrectionLevels::Q) }),
    {
        QRGenerator { options: Options { qr_type: None, version: None, mode: None, correction_level: Some(CorrectionLevels::Q) } }
    }

    /// The symbol for `data`: family and level default to Standard and Q,
    /// the version to the smallest that fits; then the data codewords,
    /// their error correction, interleaving and the module grid.
    pub fn make_qr_code(&mut self, data: Vec<u8>) -> (r: Result<ModuleGrid, EncodingError>)
        ensures
            final(self).options.qr_type == with_defaults(old(self).options).qr_type,
            final(self).options.correction_level == with_defaults(old(self).options).correction_level,
            old(self).options.version is None && with_defaults(old(self).options).qr_type == Some(QRSymbolTypes::QRCode)
                && standard_version_result(
                with_defaults(old(self).options).correction_level->0,
                old(self).options.mode.unwrap_or(EncodingModes::Dynamic),
                data@.len() as int,
            ) is Err ==> r is Err,
            old(self).options.version is Some ==> final(self).options.version == old(self).options.version,
            old(self).options.version is None ==> (sized_version(with_defaults(old(self).options), data@) matches Ok(v)
                ==> final(self).options.version == Some(v)),
            old(self).options.version is None ==> (sized_version(with_defaults(old(self).options), data@) matches Err(e)
                ==> r == Err::<ModuleGrid, EncodingError>(e)),
            final(self).options.version is Some && supported(
                final(self).options.qr_type->0,
                final(self).options.version->0 as int,
                final(self).options.correction_level->0,
            ) ==> (encode_spec(final(self).options, data@) matches Err(e) ==> r == Err::<ModuleGrid, EncodingError>(e)),
            final(self).options.version is Some && supported(
                final(self).options.qr_type->0,
                final(self).options.version->0 as int,
                final(self).options.correction_level->0,
            ) && encode_spec(final(self).options, data@) is Ok ==> r is Ok,
            r matches Ok(grid) ==> grid.wf() && grid.size == side(
                final(self).options.qr_type->0,
                final(self).options.version->0 as int,
            ) && forall|i: int| 0 <= i < grid.cells@.len() ==> #[trigger] grid.cells@[i] == DARK || grid.cells@[i]
                == LIGHT,
    {
        if self.options.qr_type.is_none() {
            self.options.qr_type = Some(QRSymbolTypes::QRCode);
        }
        if self.options.correction_level.is_none() {
            self.options.correction_level = Some(CorrectionLevels::Q);
        }
        if self.options.version.is_none() {
            match Sizer::calculate_version(&self.options, data.as_slice()) {
                Ok(v) => self.options.version = Some(v),
                Err(e) => return Err(e),
            }
        }
        let kind = self.options.qr_type.unwrap();
        let version = self.options.version.unwrap();
        let level = self.options.correction_level.unwrap();
        let ok = match kind {
            QRSymbolTypes::QRCode => 1 <= version && version <= 40 && level != CorrectionLevels::DetectionOnly,
            QRSymbolTypes::MicroQRCode => (version == 1 && level == CorrectionLevels::DetectionOnly) || ((version == 2
                || version == 3) && (level == CorrectionLevels::L || level == CorrectionLevels::M)) || (version == 4 && (
            level == CorrectionLevels::L || level == CorrectionLevels::M || level == CorrectionLevels::Q)),
        };
        if !ok {
            return Err(EncodingError::new(ErrorKind::UnsupportedConfiguration));
        }
        let message = match codewords(self.options, data) {
            Ok(m) => m,
            Err(e) => return Err(e),
        };
        let mut builder = ImageBuilder::new(kind, version, message, level);
        builder.build_qr_image();
        Ok(builder.grid)
    }
}

/// The codewords of the symbol in transmission order: the data codewords
/// and their error correction, interleaved.
fn codewords(options: Options, data: Vec<u8>) -> (r: Result<Vec<u8>, EncodingError>)
    requires
        options.qr_type is Some,
        options.version is Some,
        options.correction_level is Some,
        supported(options.qr_type->0, options.version->0 as int, options.correction_level->0),
    ensures
        encode_spec(options, data@) matches Err(e) ==> r == Err::<Vec<u8>, EncodingError>(e),
        encode_spec(options, data@) is Ok ==> r is Ok,
        r matches Ok(m) ==> encode_spec(options, data@) matches Ok(d) && m@ == crate::error_correction::transmission(
            d,
            crate::error_correction::expand_spec(
                crate::sizer::shape_spec(options.qr_type->0, options.version->0 as int, options.correction_level->0),
            ),
        ),
{
    let kind = options.qr_type.unwrap();
    let version = options.version.unwrap();
    let level = options.correction_level.unwrap();
    let mut encoder = Encoder::new(options, data);
    match encoder.encode_data_into_byte_stream() {
        Ok(_) => {},
        Err(e) => return Err(e),
    }
    let shape = Sizer::error_correction_shape(&kind, version, &level);
    let mut corrector = ErrorCorrector::from(&shape);
    proof {
        crate::sizer::lemma_shape_total(kind, version as int, level);
        crate::error_correction::lemma_expand_total(shape@, corrector.blocks@);
        crate::error_correction::lemma_expand_bounds(shape@, 3707);
    }
    let ghost laid = corrector.blocks@;
    let ghost out = encoder.output_data@;
    proof {
        assert(out.len() == crate::sizer::data_capacity(kind, version as int, level));
        assert(crate::error_correction::data_total(laid, laid.len() as int) == out.len());
    }
    match corrector.fill_data_into_blocks(encoder.output_data) {
        Ok(_) => {},
        Err(e) => return Err(e),
    }
    proof {
        crate::error_correction::lemma_data_total_monotonic(laid, laid.len() as int);
        assert forall|t: int| 0 <= t < corrector.blocks@.len() implies (#[trigger] corrector.blocks@[t]).data_codewords@.len()
            + corrector.blocks@[t].error_correction_codeword_count <= usize::MAX by {
            assert(crate::error_correction::data_total(laid, t + 1) == crate::error_correction::data_total(laid, t)
                + laid[t].data_codeword_count);
            assert(laid[t].data_codeword_count == crate::error_correction::expand_spec(shape@)[t].0);
            assert(laid[t].error_correction_codeword_count == crate::error_correction::expand_spec(shape@)[t].1);
            assert(laid[t].data_codeword_count <= 3707);
            assert(laid[t].error_correction_codeword_count <= 3707);
            assert(crate::error_correction::data_total(laid, t) <= crate::error_correction::data_total(laid, laid.len() as int));
            assert(crate::error_correction::data_total(laid, t + 1) <= crate::error_correction::data_total(laid, laid.len() as int));
            crate::error_correction::lemma_data_total_nonneg(laid, t);
            assert(corrector.blocks@[t].data_codewords@ == out.subrange(
                crate::error_correction::data_total(laid, t),
                crate::error_correction::data_total(laid, t + 1),
            ));
            assert(corrector.blocks@[t].data_codewords@.len() == laid[t].data_codeword_count);
        }
    }
    let ghost filled = corrector.blocks@;
    corrector.generate_error_correction();
    let sent = corrector.interleave();
    let ghost layout = crate::error_correction::expand_spec(shape@);
    proof {
        let fin = corrector.blocks@;
        let d = Seq::new(layout.len(), |i: int| out.subrange(
            crate::error_correction::layout_total(layout, i),
            crate::error_correction::layout_total(layout, i + 1),
        ));
        let e = Seq::new(layout.len(), |i: int| crate::error_correction::parity_spec(d[i], layout[i].1 as nat));
        assert forall|i: int| 0 <= i < fin.len() implies #[trigger] fin[i].data_codewords@ == d[i] by {
            crate::error_correction::lemma_layout_total(laid, layout, i);
            crate::error_correction::lemma_layout_total(laid, layout, i + 1);
        }
        assert(crate::error_correction::data_rows(fin) =~= d);
        assert forall|i: int| 0 <= i < fin.len() implies #[trigger] fin[i].ec_codewords@ == e[i] by {
            assert(fin[i].data_codewords@ == d[i]);
            assert(filled[i].error_correction_codeword_count == laid[i].error_correction_codeword_count);
        }
        assert(crate::error_correction::ec_rows(fin) =~= e);
    }
    let r = sent.collect();
    proof {
        assert(r@ =~= crate::error_correction::transmission(out, layout));
    }
    Ok(r)
}

/// The version that sizing picks for the options, or its error.
pub open spec fn sized_version(options: Options, data: Seq<u8>) -> Result<u32, EncodingError> {
    match options.qr_type->0 {
        QRSymbolTypes::MicroQRCode => micro_version_result(
            options.correction_level->0,
            options.mode.unwrap_or(EncodingModes::Dynamic),
            data,
        ),
        QRSymbolTypes::QRCode => standard_version_result(
            options.correction_level->0,
            options.mode.unwrap_or(EncodingModes::Dynamic),
            data.len() as int,
        ),
    }
}

} // verus!
