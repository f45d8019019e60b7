//! Sensor kinds.
use vstd::prelude::*;

verus! {

#[derive(Debug, Clone, Copy, PartialEq, Eq, Structural)]
pub enum SensorType {
    LiDAR,
    Camera,
    IMU,
    GPS,
    Radar,
}

/// The wire code of each sensor kind.
pub open spec fn sensor_code(t: SensorType) -> u8 {
    match t {
        SensorType::LiDAR => 0,
        SensorType::Camera => 1,
        SensorType::IMU => 2,
        SensorType::GPS => 3,
        SensorType::Radar => 4,
    }
}

impl SensorType {
    /// The sensor kind with wire code `v`, if any.
    pub fn from_u8(v: u8) -> (r: Option<SensorType>)
        ensures
            v <= 4 ==> (r matches Some(t) && sensor_code(t) == v),
            v > 4 ==> r is None,
    {
        match v {
            0 => Some(SensorType::LiDAR),
            1 => Some(SensorType::Camera),
            2 => Some(SensorType::IMU),
            3 => Some(SensorType::GPS),
            4 => Some(SensorType::Radar),
            _ => None,
        }
    }

    /// The wire code of this kind.
    pub fn code(&self) -> (r: u8)
        ensures
            r == sensor_code(*self),
    {
        match self {
            SensorType::LiDAR => 0,
            SensorType::Camera => 1,
            SensorType::IMU => 2,
            SensorType::GPS => 3,
            SensorType::Radar => 4,
        }
    }
}

/// Every kind reads back from its code.
pub proof fn lemma_code_roundtrip(t: SensorType)
    ensures
        sensor_code(t) <= 4,
{
}

} // verus!
