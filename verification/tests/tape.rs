//! The tape facade's translation layer: status decoding, locate
//! parameters, operation codes and end-of-tape models.

use d2fn::{eot_model_code, eot_model_from_code, parse_status, BlockSize, Compression, Density, DriverState, EotModel, LocationBuilder, MtDensity, Operation, Protection, RawStatus, TapeError, TapeStatus, TapeStatusEx, Target};

fn raw() -> RawStatus {
    RawStatus {
        mt_type: 0x07,
        dsreg: 1,
        erreg: 0,
        resid: 3,
        blksiz: 0,
        density: 0x46,
        comp: 0xffffffff,
        blksiz0: 0,
        blksiz1: 0,
        blksiz2: 0,
        blksiz3: 0,
        density0: 0,
        density1: 0,
        density2: 0,
        density3: 0,
        comp0: 0,
        comp1: 0,
        comp2: 0,
        comp3: 0,
        fileno: 4,
        blkno: 9,
    }
}

#[test]
fn density_table_lookup() {
    let d = Density::get(0x46);
    assert_eq!(d.code, 0x46);
    assert_eq!(d.bpmm, 12725);
    assert_eq!(d.bpi, 323215);
    assert_eq!(d.description, "LTO-4");
    let u = Density::get(0x99);
    assert_eq!(u.code, 0);
    assert_eq!(u.description, "Unknown");
}

#[test]
fn block_size_decodes() {
    assert!(matches!(BlockSize::from(0), BlockSize::Variable));
    assert!(matches!(BlockSize::from(1024), BlockSize::Fixed(1024)));
}

#[test]
fn compression_decodes() {
    assert_eq!(Compression::from(0), Compression::Off);
    assert_eq!(Compression::from(1), Compression::On);
    assert_eq!(Compression::from(0xffffffff), Compression::On);
    assert_eq!(Compression::from(0x10), Compression::Idrc);
    assert_eq!(Compression::from(0x20), Compression::Dclz);
    assert_eq!(Compression::from(2), Compression::Unknown);
    assert_eq!(Compression::from(0x21), Compression::Unknown);
}

#[test]
fn status_decodes() {
    let s = TapeStatus::try_from(raw()).unwrap();
    assert_eq!(s.state, DriverState::Rest);
    assert!(matches!(s.block_size, BlockSize::Variable));
    assert_eq!(s.density.description, "LTO-4");
    assert_eq!(s.compression, Compression::On);
    assert_eq!(s.file_no, 4);
    assert_eq!(s.block_no, 9);
    assert_eq!(s.residual, 3);
}

#[test]
fn unknown_driver_state_is_rejected() {
    let mut r = raw();
    r.dsreg = 99;
    assert_eq!(TapeStatus::try_from(r).unwrap_err(), TapeError::UnknownDriverState(99));
}

#[test]
fn non_scsi_device_is_rejected() {
    let mut r = raw();
    r.mt_type = 0x03;
    assert_eq!(parse_status(r).unwrap_err(), TapeError::NotScsi(0x03));
}

#[test]
fn locate_builder_builds_parameters() {
    let loc = LocationBuilder::new().immediate(true).change_partition(2).block(4);
    assert!(matches!(loc.target, Target::Block(4)));
    let p = loc.to_mt_locate();
    assert_eq!(p.flags, 3); // immediate | change partition
    assert_eq!(p.dest_type, 0);
    assert_eq!(p.block_address_mode, 0);
    assert_eq!(p.partition, 2);
    assert_eq!(p.logical_id, 4);
    assert!(p.reserved.iter().all(|&b| b == 0));
}

#[test]
fn locate_targets_have_their_codes() {
    assert_eq!(LocationBuilder::new().file(7).to_mt_locate().dest_type, 1);
    assert_eq!(LocationBuilder::new().setmark(7).to_mt_locate().dest_type, 2);
    let eod = LocationBuilder::new().end_of_data().to_mt_locate();
    assert_eq!(eod.dest_type, 3);
    assert_eq!(eod.logical_id, 0);
    assert_eq!(eod.flags, 0);
}

#[test]
fn operation_codes() {
    assert_eq!(Operation::WriteEof.code(), 0);
    assert_eq!(Operation::Rewind.code(), 5);
    assert_eq!(Operation::SetCompression.code(), 14);
    assert_eq!(Operation::WriteEofImmediately.code(), 20);
    let op = Operation::SetBlockSize.to_mt_op(512);
    assert_eq!(op.op, 10);
    assert_eq!(op.count, 512);
}

#[test]
fn eot_models_translate() {
    assert_eq!(eot_model_from_code(1), EotModel::OneSetmark);
    assert_eq!(eot_model_from_code(2), EotModel::TwoSetmarks);
    assert_eq!(eot_model_from_code(5), EotModel::Many(5));
    assert_eq!(eot_model_code(&EotModel::OneSetmark).unwrap(), 1);
    assert_eq!(eot_model_code(&EotModel::TwoSetmarks).unwrap(), 2);
    assert_eq!(eot_model_code(&EotModel::Many(5)).unwrap_err(), TapeError::InvalidEotModel);
}

#[test]
fn extended_status_flag() {
    let ex = TapeStatusEx {
        periph_name: String::new(),
        unit_number: 0,
        vendor: String::new(),
        product: String::new(),
        revision: String::new(),
        serial_num: String::new(),
        maxio: 0,
        cpi_maxio: 0,
        max_blk: 0,
        min_blk: 0,
        blk_gran: 0,
        max_effective_iosize: 0,
        fixed_mode: 0,
        compression_supported: 0,
        compression_enabled: 0,
        compression_algorithm: 0,
        protection: Protection {
            protection_supported: 0,
            prot_method: 0,
            pi_length: 0,
            lbp_w: 0,
            lbp_r: 0,
            rbdp: 0,
        },
        media_blocksize: 0,
        calculated_fileno: -1,
        calculated_rel_blkno: -1,
        reported_fileno: -1,
        reported_blkno: -1,
        partition: 0,
        bop: 0,
        eop: 0,
        bpew: 0,
        residual: 0,
        dsreg: 30,
        mtdensity: MtDensity { media_density: 0, density_report: Vec::new() },
    };
    assert_eq!(ex.flag().unwrap(), DriverState::Reading);
    let mut bad = ex;
    bad.dsreg = 77;
    assert_eq!(bad.flag().unwrap_err(), TapeError::UnknownDriverState(77));
}
