//! Options pricing: closed forms, characteristic functions, Monte Carlo, local volatility
//! and calibration, with contracts that say what each function returns.
pub mod number;
pub mod exact;
pub mod types;
pub mod math;
pub mod bsm;
pub mod solver;
pub mod iv;
pub mod complex;
pub mod characteristic;
pub mod select;
pub mod quadrature;
pub mod rule_laws;
pub mod greeks;
pub mod heston;
pub mod bates;
pub mod dual;
pub mod dual_laws;
pub mod ad;
pub mod ad_laws;
pub mod greek_laws;
pub mod random;
pub mod mc;
pub mod mc_laws;
pub mod local_vol;
pub mod local_vol_laws;
pub mod spline_laws;
pub mod repair;
pub mod repair_laws;
pub mod linalg;
pub mod linalg_laws;
pub mod jacobi_laws;
pub mod model;
pub mod calibration;
pub mod model_laws;
pub mod calibration_laws;
pub mod objective_laws;
pub mod fit_laws;
pub mod evolution;
pub mod rbergomi;
pub mod rough;
pub mod simulation_laws;
pub mod path_laws;
pub mod rough_laws;
pub mod step_laws;
pub mod stream_laws;
pub mod deribit_inverse;
pub mod price_laws;
pub mod sensitivity_laws;
pub mod volatility_laws;
pub mod inversion_laws;
pub mod batch;

pub use ad::{
    bates_greeks_ad, bates_jump_sensitivities_ad, heston_greeks_ad, heston_greeks_ad5,
    BatesJumpSensitivities,
};
pub use bates::{bates_price, bates_price_and_greeks};
pub use batch::{
    batch_bates, batch_bates_greeks, batch_bsm, batch_bsm_price, batch_heston, batch_heston_greeks,
    batch_implied_vol,
};
pub use bsm::{black76_price_and_greeks, bsm_price, bsm_price_and_greeks};
pub use calibration::{
    calibrate_bates, calibrate_bates_multistart, calibrate_bates_regularized, calibrate_heston,
    calibrate_heston_multistart, calibrate_heston_regularized, CalibResult, MultistartResult,
};
pub use evolution::{
    calibrate_bates_global, calibrate_bates_global_regularized, calibrate_heston_global,
    calibrate_heston_global_regularized, GlobalCalibResult,
};
pub use heston::{heston_price, heston_price_and_greeks};
pub use iv::implied_vol;
pub use local_vol::{dupire_local_vol, monotone_cubic_interp};
pub use mc::{mc_bates, mc_heston, mc_rough_bergomi, McConfig, McResult, Payoff, VarianceScheme};
pub use model::CalibInput;
pub use number::{Elementary, Number};
pub use random::RandomSource;
pub use repair::{check_and_repair_surface, SurfaceAudit, SurfaceViolation, ViolationKind};
pub use types::{
    BatesParams, ForwardVarianceCurve, HestonParams, IvProblem, LocalVolSurface, OptionContract,
    OptionType, PricingResult, RoughBergomiParams,
};
