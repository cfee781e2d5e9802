use vstd::prelude::*;

verus! {

/// The calculators that the tutoring shell offers.
#[derive(Debug, Clone, Copy, PartialEq, Eq, Structural)]
pub enum Calculator {
    Bodmas,
    DecimalPlaces,
    Estimation,
    EstimationSquareRoot,
    Hcf,
    Lcm,
    Multiples,
    PrimeNumbers,
    ProdPrimeFactor,
    Rounding,
    SignificantFigures,
    UpperLowerBounds,
    EquivalentFraction,
    SimplifyingFractions,
    MixedNumbers,
    OrderingFractions,
}

impl Calculator {
    /// The display name of each calculator.
    pub open spec fn spec_name(self) -> Seq<char> {
        match self {
            Calculator::Bodmas => "BODMAS Calculator"@,
            Calculator::DecimalPlaces => "Decimal Places"@,
            Calculator::Estimation => "Estimation"@,
            Calculator::EstimationSquareRoot => "Estimation of Square Root"@,
            Calculator::Hcf => "Highest Common Factor (HCF)"@,
            Calculator::Lcm => "Lowest Common Multiple (LCM)"@,
            Calculator::Multiples => "Multiples"@,
            Calculator::PrimeNumbers => "Prime Numbers"@,
            Calculator::ProdPrimeFactor => "Product of Prime Factors"@,
            Calculator::Rounding => "Rounding"@,
            Calculator::SignificantFigures => "Significant Figures"@,
            Calculator::UpperLowerBounds => "Upper and Lower Bounds"@,
            Calculator::EquivalentFraction => "Equivalent Fractions"@,
            Calculator::SimplifyingFractions => "Simplifying Fractions"@,
            Calculator::MixedNumbers => "Mixed Numbers"@,
            Calculator::OrderingFractions => "Ordering Fractions"@,
        }
    }

    /// The display name of the calculator.
    pub fn name(&self) -> (r: &'static str)
        ensures
            r@ == self.spec_name(),
    {
        match self {
            Calculator::Bodmas => "BODMAS Calculator",
            Calculator::DecimalPlaces => "Decimal Places",
            Calculator::Estimation => "Estimation",
            Calculator::EstimationSquareRoot => "Estimation of Square Root",
            Calculator::Hcf => "Highest Common Factor (HCF)",
            Calculator::Lcm => "Lowest Common Multiple (LCM)",
            Calculator::Multiples => "Multiples",
            Calculator::PrimeNumbers => "Prime Numbers",
            Calculator::ProdPrimeFactor => "Product of Prime Factors",
            Calculator::Rounding => "Rounding",
            Calculator::SignificantFigures => "Significant Figures",
            Calculator::UpperLowerBounds => "Upper and Lower Bounds",
            Calculator::EquivalentFraction => "Equivalent Fractions",
            Calculator::SimplifyingFractions => "Simplifying Fractions",
            Calculator::MixedNumbers => "Mixed Numbers",
            Calculator::OrderingFractions => "Ordering Fractions",
        }
    }
}

/// Messages for the BODMAS calculator form.
#[derive(Debug, Clone)]
pub enum BodmasMessage {
    ExpressionChanged(String),
    Calculate,
    Reset,
}

/// Messages for the Decimal Places calculator form.
#[derive(Debug, Clone)]
pub enum DecimalPlacesMessage {
    NumberInputChanged(String),
    PlacesInputChanged(String),
    Calculate,
    Reset,
}

/// Messages for the HCF calculator form.
#[derive(Debug, Clone)]
pub enum HcfMessage {
    NumbersInputChanged(String),
    Calculate,
    Reset,
}

/// Messages for the LCM calculator form.
#[derive(Debug, Clone)]
pub enum LcmMessage {
    NumbersInputChanged(String),
    Calculate,
    Reset,
}

/// Messages for the Multiples calculator form.
#[derive(Debug, Clone)]
pub enum MultiplesMessage {
    NumbersInputChanged(String),
    CountInputChanged(String),
    Calculate,
    Reset,
}

/// Messages for the Prime Numbers calculator form.
#[derive(Debug, Clone)]
pub enum PrimeNumbersMessage {
    NumbersInputChanged(String),
    Calculate,
    Reset,
}

/// Messages for the Product of Prime Factors calculator form.
#[derive(Debug, Clone)]
pub enum ProdPrimeFactorMessage {
    NumberInputChanged(String),
    Calculate,
    Reset,
}

/// Messages for the Equivalent Fraction calculator form.
#[derive(Debug, Clone)]
pub enum EquivalentFractionMessage {
    AChanged(String),
    BChanged(String),
    CChanged(String),
    DChanged(String),
    Calculate,
    Reset,
}

/// Messages for the Simplifying Fractions calculator form.
#[derive(Debug, Clone)]
pub enum SimplifyingFractionsMessage {
    NumeratorChanged(String),
    DenominatorChanged(String),
    Calculate,
    Reset,
}

/// Messages for the Mixed Numbers calculator form.
#[derive(Debug, Clone)]
pub enum MixedNumbersMessage {
    WholeChanged(String),
    NumeratorChanged(String),
    DenominatorChanged(String),
    CalculateMixedToImproper,
    ImproperNumeratorChanged(String),
    ImproperDenominatorChanged(String),
    CalculateImproperToMixed,
    Reset,
}

/// Messages for the Ordering Fractions calculator form.
#[derive(Debug, Clone)]
pub enum OrderingFractionsMessage {
    FractionsInputChanged(String),
    Calculate,
    Reset,
}

} // verus!
