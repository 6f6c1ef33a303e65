//! The closed measurement- and quality-flag code tables of the positional
//! weather records. Decoding is total over `char`: every character either
//! maps to exactly one variant or is reported as unrecognized — never to a
//! default variant.

use vstd::prelude::*;

verus! {

#[derive(Clone, Copy, PartialEq, Eq, Structural, Debug)]
pub enum MeasurementFlag {
    PrecipitationTotalFromTwoTwelveHourTotals,
    PrecipitationTotalFromFourSixHourTotals,
    HourlyPoint,
    ConvertedFromKnots,
    TemperatureLaggedFromObservation,
    ConvertedFromOktas,
    MissingPresumedZero,
    TraceOfPrecipitation,
    ConvertedFromWBANCode,
}

impl MeasurementFlag {
    /// The single-character code of each variant.
    pub open spec fn spec_code(self) -> char {
        match self {
            MeasurementFlag::PrecipitationTotalFromTwoTwelveHourTotals => 'B',
            MeasurementFlag::PrecipitationTotalFromFourSixHourTotals => 'D',
            MeasurementFlag::HourlyPoint => 'H',
            MeasurementFlag::ConvertedFromKnots => 'K',
            MeasurementFlag::TemperatureLaggedFromObservation => 'L',
            MeasurementFlag::ConvertedFromOktas => 'O',
            MeasurementFlag::MissingPresumedZero => 'P',
            MeasurementFlag::TraceOfPrecipitation => 'T',
            MeasurementFlag::ConvertedFromWBANCode => 'W',
        }
    }

    pub open spec fn spec_from_code(c: char) -> Option<MeasurementFlag> {
        if c == 'B' {
            Some(MeasurementFlag::PrecipitationTotalFromTwoTwelveHourTotals)
        } else if c == 'D' {
            Some(MeasurementFlag::PrecipitationTotalFromFourSixHourTotals)
        } else if c == 'H' {
            Some(MeasurementFlag::HourlyPoint)
        } else if c == 'K' {
            Some(MeasurementFlag::ConvertedFromKnots)
        } else if c == 'L' {
            Some(MeasurementFlag::TemperatureLaggedFromObservation)
        } else if c == 'O' {
            Some(MeasurementFlag::ConvertedFromOktas)
        } else if c == 'P' {
            Some(MeasurementFlag::MissingPresumedZero)
        } else if c == 'T' {
            Some(MeasurementFlag::TraceOfPrecipitation)
        } else if c == 'W' {
            Some(MeasurementFlag::ConvertedFromWBANCode)
        } else {
            None
        }
    }

    /// Decode one code character. `None` is the decode error: no character
    /// outside the closed table is ever assigned a variant.
    pub fn from_code(c: char) -> (r: Option<MeasurementFlag>)
        ensures
            r == Self::spec_from_code(c),
    {
        match c {
            'B' => Some(MeasurementFlag::PrecipitationTotalFromTwoTwelveHourTotals),
            'D' => Some(MeasurementFlag::PrecipitationTotalFromFourSixHourTotals),
            'H' => Some(MeasurementFlag::HourlyPoint),
            'K' => Some(MeasurementFlag::ConvertedFromKnots),
            'L' => Some(MeasurementFlag::TemperatureLaggedFromObservation),
            'O' => Some(MeasurementFlag::ConvertedFromOktas),
            'P' => Some(MeasurementFlag::MissingPresumedZero),
            'T' => Some(MeasurementFlag::TraceOfPrecipitation),
            'W' => Some(MeasurementFlag::ConvertedFromWBANCode),
            _ => None,
        }
    }

    pub fn code(self) -> (c: char)
        ensures
            c == self.spec_code(),
    {
        match self {
            MeasurementFlag::PrecipitationTotalFromTwoTwelveHourTotals => 'B',
            MeasurementFlag::PrecipitationTotalFromFourSixHourTotals => 'D',
            MeasurementFlag::HourlyPoint => 'H',
            MeasurementFlag::ConvertedFromKnots => 'K',
            MeasurementFlag::TemperatureLaggedFromObservation => 'L',
            MeasurementFlag::ConvertedFromOktas => 'O',
            MeasurementFlag::MissingPresumedZero => 'P',
            MeasurementFlag::TraceOfPrecipitation => 'T',
            MeasurementFlag::ConvertedFromWBANCode => 'W',
        }
    }

    pub open spec fn spec_name(self) -> Seq<char> {
        match self {
            MeasurementFlag::PrecipitationTotalFromTwoTwelveHourTotals => {
                "PrecipitationTotalFromTwoTwelveHourTotals"@
            },
            MeasurementFlag::PrecipitationTotalFromFourSixHourTotals => {
                "PrecipitationTotalFromFourSixHourTotals"@
            },
            MeasurementFlag::HourlyPoint => "HourlyPoint"@,
            MeasurementFlag::ConvertedFromKnots => "ConvertedFromKnots"@,
            MeasurementFlag::TemperatureLaggedFromObservation => {
                "TemperatureLaggedFromObservation"@
            },
            MeasurementFlag::ConvertedFromOktas => "ConvertedFromOktas"@,
            MeasurementFlag::MissingPresumedZero => "MissingPresumedZero"@,
            MeasurementFlag::TraceOfPrecipitation => "TraceOfPrecipitation"@,
            MeasurementFlag::ConvertedFromWBANCode => "ConvertedFromWBANCode"@,
        }
    }

    /// The variant's name as text, as it is persisted.
    pub fn name(self) -> (s: String)
        ensures
            s@ == self.spec_name(),
    {
        match self {
            MeasurementFlag::PrecipitationTotalFromTwoTwelveHourTotals => {
                "PrecipitationTotalFromTwoTwelveHourTotals".to_owned()
            },
            MeasurementFlag::PrecipitationTotalFromFourSixHourTotals => {
                "PrecipitationTotalFromFourSixHourTotals".to_owned()
            },
            MeasurementFlag::HourlyPoint => "HourlyPoint".to_owned(),
            MeasurementFlag::ConvertedFromKnots => "ConvertedFromKnots".to_owned(),
            MeasurementFlag::TemperatureLaggedFromObservation => {
                "TemperatureLaggedFromObservation".to_owned()
            },
            MeasurementFlag::ConvertedFromOktas => "ConvertedFromOktas".to_owned(),
            MeasurementFlag::MissingPresumedZero => "MissingPresumedZero".to_owned(),
            MeasurementFlag::TraceOfPrecipitation => "TraceOfPrecipitation".to_owned(),
            MeasurementFlag::ConvertedFromWBANCode => "ConvertedFromWBANCode".to_owned(),
        }
    }
}

/// Decoding a variant's own code always gives that variant back: the code
/// table is injective, so no flag is ever mis-tagged as another.
pub proof fn lemma_measurement_flag_round_trip(f: MeasurementFlag)
    ensures
        MeasurementFlag::spec_from_code(f.spec_code()) == Some(f),
{
}

#[derive(Clone, Copy, PartialEq, Eq, Structural, Debug)]
pub enum QualityFlag {
    Duplicate,
    Gap,
    InternalConsistency,
    StreakFrequent,
    Length,
    Megaconsistency,
    Naught,
    ClimatologicalOutlier,
    LaggedRange,
    SpatialConsistency,
    TemporalConsistency,
    TooWarmForSnow,
    FailedBoundsCheck,
    FlaggedDatzilla,
}

impl QualityFlag {
    pub open spec fn spec_code(self) -> char {
        match self {
            QualityFlag::Duplicate => 'D',
            QualityFlag::Gap => 'G',
            QualityFlag::InternalConsistency => 'I',
            QualityFlag::StreakFrequent => 'K',
            QualityFlag::Length => 'L',
            QualityFlag::Megaconsistency => 'M',
            QualityFlag::Naught => 'N',
            QualityFlag::ClimatologicalOutlier => 'O',
            QualityFlag::LaggedRange => 'R',
            QualityFlag::SpatialConsistency => 'S',
            QualityFlag::TemporalConsistency => 'T',
            QualityFlag::TooWarmForSnow => 'W',
            QualityFlag::FailedBoundsCheck => 'X',
            QualityFlag::FlaggedDatzilla => 'Z',
        }
    }

    pub open spec fn spec_from_code(c: char) -> Option<QualityFlag> {
        if c == 'D' {
            Some(QualityFlag::Duplicate)
        } else if c == 'G' {
            Some(QualityFlag::Gap)
        } else if c == 'I' {
            Some(QualityFlag::InternalConsistency)
        } else if c == 'K' {
            Some(QualityFlag::StreakFrequent)
        } else if c == 'L' {
            Some(QualityFlag::Length)
        } else if c == 'M' {
            Some(QualityFlag::Megaconsistency)
        } else if c == 'N' {
            Some(QualityFlag::Naught)
        } else if c == 'O' {
            Some(QualityFlag::ClimatologicalOutlier)
        } else if c == 'R' {
            Some(QualityFlag::LaggedRange)
        } else if c == 'S' {
            Some(QualityFlag::SpatialConsistency)
        } else if c == 'T' {
            Some(QualityFlag::TemporalConsistency)
        } else if c == 'W' {
            Some(QualityFlag::TooWarmForSnow)
        } else if c == 'X' {
            Some(QualityFlag::FailedBoundsCheck)
        } else if c == 'Z' {
            Some(QualityFlag::FlaggedDatzilla)
        } else {
            None
        }
    }

    /// Decode one code character; `None` is the decode error.
    pub fn from_code(c: char) -> (r: Option<QualityFlag>)
        ensures
            r == Self::spec_from_code(c),
    {
        match c {
            'D' => Some(QualityFlag::Duplicate),
            'G' => Some(QualityFlag::Gap),
            'I' => Some(QualityFlag::InternalConsistency),
            'K' => Some(QualityFlag::StreakFrequent),
            'L' => Some(QualityFlag::Length),
            'M' => Some(QualityFlag::Megaconsistency),
            'N' => Some(QualityFlag::Naught),
            'O' => Some(QualityFlag::ClimatologicalOutlier),
            'R' => Some(QualityFlag::LaggedRange),
            'S' => Some(QualityFlag::SpatialConsistency),
            'T' => Some(QualityFlag::TemporalConsistency),
            'W' => Some(QualityFlag::TooWarmForSnow),
            'X' => Some(QualityFlag::FailedBoundsCheck),
            'Z' => Some(QualityFlag::FlaggedDatzilla),
            _ => None,
        }
    }

    pub fn code(self) -> (c: char)
        ensures
            c == self.spec_code(),
    {
        match self {
            QualityFlag::Duplicate => 'D',
            QualityFlag::Gap => 'G',
            QualityFlag::InternalConsistency => 'I',
            QualityFlag::StreakFrequent => 'K',
            QualityFlag::Length => 'L',
            QualityFlag::Megaconsistency => 'M',
            QualityFlag::Naught => 'N',
            QualityFlag::ClimatologicalOutlier => 'O',
            QualityFlag::LaggedRange => 'R',
            QualityFlag::SpatialConsistency => 'S',
            QualityFlag::TemporalConsistency => 'T',
            QualityFlag::TooWarmForSnow => 'W',
            QualityFlag::FailedBoundsCheck => 'X',
            QualityFlag::FlaggedDatzilla => 'Z',
        }
    }

    pub open spec fn spec_name(self) -> Seq<char> {
        match self {
            QualityFlag::Duplicate => "Duplicate"@,
            QualityFlag::Gap => "Gap"@,
            QualityFlag::InternalConsistency => "InternalConsistency"@,
            QualityFlag::StreakFrequent => "StreakFrequent"@,
            QualityFlag::Length => "Length"@,
            QualityFlag::Megaconsistency => "Megaconsistency"@,
            QualityFlag::Naught => "Naught"@,
            QualityFlag::ClimatologicalOutlier => "ClimatologicalOutlier"@,
            QualityFlag::LaggedRange => "LaggedRange"@,
            QualityFlag::SpatialConsistency => "SpatialConsistency"@,
            QualityFlag::TemporalConsistency => "TemporalConsistency"@,
            QualityFlag::TooWarmForSnow => "TooWarmForSnow"@,
            QualityFlag::FailedBoundsCheck => "FailedBoundsCheck"@,
            QualityFlag::FlaggedDatzilla => "FlaggedDatzilla"@,
        }
    }

    /// The variant's name as text, as it is persisted.
    pub fn name(self) -> (s: String)
        ensures
            s@ == self.spec_name(),
    {
        match self {
            QualityFlag::Duplicate => "Duplicate".to_owned(),
            QualityFlag::Gap => "Gap".to_owned(),
            QualityFlag::InternalConsistency => "InternalConsistency".to_owned(),
            QualityFlag::StreakFrequent => "StreakFrequent".to_owned(),
            QualityFlag::Length => "Length".to_owned(),
            QualityFlag::Megaconsistency => "Megaconsistency".to_owned(),
            QualityFlag::Naught => "Naught".to_owned(),
            QualityFlag::ClimatologicalOutlier => "ClimatologicalOutlier".to_owned(),
            QualityFlag::LaggedRange => "LaggedRange".to_owned(),
            QualityFlag::SpatialConsistency => "SpatialConsistency".to_owned(),
            QualityFlag::TemporalConsistency => "TemporalConsistency".to_owned(),
            QualityFlag::TooWarmForSnow => "TooWarmForSnow".to_owned(),
            QualityFlag::FailedBoundsCheck => "FailedBoundsCheck".to_owned(),
            QualityFlag::FlaggedDatzilla => "FlaggedDatzilla".to_owned(),
        }
    }
}

/// Decoding a variant's own code always gives that variant back.
pub proof fn lemma_quality_flag_round_trip(f: QualityFlag)
    ensures
        QualityFlag::spec_from_code(f.spec_code()) == Some(f),
{
}

} // verus!
