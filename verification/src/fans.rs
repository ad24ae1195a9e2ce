//! Fan (scoring pattern) recognition.
//!
//! Only the patterns of the hand's shape are collected here; those of the
//! way of winning (concealed hand, self-drawn, last tile) are added by
//! `score`. Edge, closed and single waits depend on the winning tile and are
//! collected with the shape.
use vstd::prelude::*;
use crate::decompose::{Decomp, DecompModel, Group, Special};
use crate::model::Meld;
use crate::tiles::Counts;

pub mod bounds;

pub mod facts;
pub mod kinds;
pub mod pairs;
pub mod special;
pub mod standard;

verus! {

/// The scoring patterns (fan).
#[derive(Clone, Copy, Debug, PartialEq, Eq, Structural)]
pub enum FanKind {
    /// 大四喜
    DaSiXi,
    /// 大三元
    DaSanYuan,
    /// 小四喜
    XiaoSiXi,
    /// 小三元
    XiaoSanYuan,
    /// 字一色
    ZiYiSe,
    /// 清一色
    QingYiSe,
    /// 混一色
    HunYiSe,
    /// 绿一色
    LvYiSe,
    /// 清幺九
    QingYaoJiu,
    /// 混幺九
    HunYaoJiu,
    /// 九莲宝灯
    JiuLianBaoDeng,
    /// 四杠
    SiGang,
    /// 三杠
    SanGang,
    /// 双暗杠
    ShuangAnGang,
    /// 双明杠
    ShuangMingGang,
    /// 一明一暗杠
    YiMingYiAnGang,
    /// 暗杠
    AnGang,
    /// 明杠
    MingGang,
    /// 碰碰和
    PengPengHe,
    /// 四暗刻
    SiAnKe,
    /// 三暗刻
    SanAnKe,
    /// 双暗刻
    ShuangAnKe,
    /// 箭刻
    JianKe,
    /// 圈风刻
    QuanFengKe,
    /// 门风刻
    MenFengKe,
    /// 幺九刻
    YaoJiuKe,
    /// 三风刻
    SanFengKe,
    /// 双箭刻
    ShuangJianKe,
    /// 三同刻
    SanTongKe,
    /// 双同刻
    ShuangTongKe,
    /// 一色四同顺
    YiSeSiTongShun,
    /// 一色三同顺
    YiSeSanTongShun,
    /// 一色四节高
    YiSeSiJieGao,
    /// 一色三节高
    YiSeSanJieGao,
    /// 清龙
    QingLong,
    /// 花龙
    HuaLong,
    /// 一色四步高
    YiSeSiBuGao,
    /// 一色三步高
    YiSeSanBuGao,
    /// 三色三同顺
    SanSeSanTongShun,
    /// 三色三节高
    SanSeSanJieGao,
    /// 三色三步高
    SanSeSanBuGao,
    /// 一般高
    YiBanGao,
    /// 喜相逢
    XiXiangFeng,
    /// 连六
    LianLiu,
    /// 老少副
    LaoShaoFu,
    /// 全带五
    QuanDaiWu,
    /// 全带幺
    QuanDaiYao,
    /// 全大
    QuanDa,
    /// 全中
    QuanZhong,
    /// 全小
    QuanXiao,
    /// 大于五
    DaYuWu,
    /// 小于五
    XiaoYuWu,
    /// 全双刻
    QuanShuangKe,
    /// 五门齐
    WuMenQi,
    /// 平和
    PingHe,
    /// 断幺
    DuanYao,
    /// 缺一门
    QueYiMen,
    /// 无字
    WuZi,
    /// 四归一
    SiGuiYi,
    /// 推不倒
    TuiBuDao,
    /// 一色双龙会
    YiSeShuangLongHui,
    /// 三色双龙会
    SanSeShuangLongHui,
    /// 单钓将
    DanDiaoJiang,
    /// 边张
    BianZhang,
    /// 坎张
    KanZhang,
    /// 连七对
    LianQiDui,
    /// 七对
    QiDui,
    /// 十三幺
    ShiSanYao,
    /// 七星不靠
    QiXingBuKao,
    /// 全不靠
    QuanBuKao,
    /// 组合龙
    ZuHeLong,
    /// 门前清
    MenQianQing,
    /// 不求人
    BuQiuRen,
    /// 自摸
    ZiMo,
    /// 和绝张
    HeJueZhang,
    /// 全求人
    QuanQiuRen,
    /// 无番和
    WuFanHe,
}

/// The Chinese name of a pattern.
pub open spec fn kind_name(k: FanKind) -> &'static str {
    match k {
        FanKind::DaSiXi => "大四喜",
        FanKind::DaSanYuan => "大三元",
        FanKind::XiaoSiXi => "小四喜",
        FanKind::XiaoSanYuan => "小三元",
        FanKind::ZiYiSe => "字一色",
        FanKind::QingYiSe => "清一色",
        FanKind::HunYiSe => "混一色",
        FanKind::LvYiSe => "绿一色",
        FanKind::QingYaoJiu => "清幺九",
        FanKind::HunYaoJiu => "混幺九",
        FanKind::JiuLianBaoDeng => "九莲宝灯",
        FanKind::SiGang => "四杠",
        FanKind::SanGang => "三杠",
        FanKind::ShuangAnGang => "双暗杠",
        FanKind::ShuangMingGang => "双明杠",
        FanKind::YiMingYiAnGang => "一明一暗杠",
        FanKind::AnGang => "暗杠",
        FanKind::MingGang => "明杠",
        FanKind::PengPengHe => "碰碰和",
        FanKind::SiAnKe => "四暗刻",
        FanKind::SanAnKe => "三暗刻",
        FanKind::ShuangAnKe => "双暗刻",
        FanKind::JianKe => "箭刻",
        FanKind::QuanFengKe => "圈风刻",
        FanKind::MenFengKe => "门风刻",
        FanKind::YaoJiuKe => "幺九刻",
        FanKind::SanFengKe => "三风刻",
        FanKind::ShuangJianKe => "双箭刻",
        FanKind::SanTongKe => "三同刻",
        FanKind::ShuangTongKe => "双同刻",
        FanKind::YiSeSiTongShun => "一色四同顺",
        FanKind::YiSeSanTongShun => "一色三同顺",
        FanKind::YiSeSiJieGao => "一色四节高",
        FanKind::YiSeSanJieGao => "一色三节高",
        FanKind::QingLong => "清龙",
        FanKind::HuaLong => "花龙",
        FanKind::YiSeSiBuGao => "一色四步高",
        FanKind::YiSeSanBuGao => "一色三步高",
        FanKind::SanSeSanTongShun => "三色三同顺",
        FanKind::SanSeSanJieGao => "三色三节高",
        FanKind::SanSeSanBuGao => "三色三步高",
        FanKind::YiBanGao => "一般高",
        FanKind::XiXiangFeng => "喜相逢",
        FanKind::LianLiu => "连六",
        FanKind::LaoShaoFu => "老少副",
        FanKind::QuanDaiWu => "全带五",
        FanKind::QuanDaiYao => "全带幺",
        FanKind::QuanDa => "全大",
        FanKind::QuanZhong => "全中",
        FanKind::QuanXiao => "全小",
        FanKind::DaYuWu => "大于五",
        FanKind::XiaoYuWu => "小于五",
        FanKind::QuanShuangKe => "全双刻",
        FanKind::WuMenQi => "五门齐",
        FanKind::PingHe => "平和",
        FanKind::DuanYao => "断幺",
        FanKind::QueYiMen => "缺一门",
        FanKind::WuZi => "无字",
        FanKind::SiGuiYi => "四归一",
        FanKind::TuiBuDao => "推不倒",
        FanKind::YiSeShuangLongHui => "一色双龙会",
        FanKind::SanSeShuangLongHui => "三色双龙会",
        FanKind::DanDiaoJiang => "单钓将",
        FanKind::BianZhang => "边张",
        FanKind::KanZhang => "坎张",
        FanKind::LianQiDui => "连七对",
        FanKind::QiDui => "七对",
        FanKind::ShiSanYao => "十三幺",
        FanKind::QiXingBuKao => "七星不靠",
        FanKind::QuanBuKao => "全不靠",
        FanKind::ZuHeLong => "组合龙",
        FanKind::MenQianQing => "门前清",
        FanKind::BuQiuRen => "不求人",
        FanKind::ZiMo => "自摸",
        FanKind::HeJueZhang => "和绝张",
        FanKind::QuanQiuRen => "全求人",
        FanKind::WuFanHe => "无番和",
    }
}

/// The Chinese name of a pattern.
pub fn fan_name(k: FanKind) -> (s: &'static str)
    ensures
        s == kind_name(k),
{
    match k {
        FanKind::DaSiXi => "大四喜",
        FanKind::DaSanYuan => "大三元",
        FanKind::XiaoSiXi => "小四喜",
        FanKind::XiaoSanYuan => "小三元",
        FanKind::ZiYiSe => "字一色",
        FanKind::QingYiSe => "清一色",
        FanKind::HunYiSe => "混一色",
        FanKind::LvYiSe => "绿一色",
        FanKind::QingYaoJiu => "清幺九",
        FanKind::HunYaoJiu => "混幺九",
        FanKind::JiuLianBaoDeng => "九莲宝灯",
        FanKind::SiGang => "四杠",
        FanKind::SanGang => "三杠",
        FanKind::ShuangAnGang => "双暗杠",
        FanKind::ShuangMingGang => "双明杠",
        FanKind::YiMingYiAnGang => "一明一暗杠",
        FanKind::AnGang => "暗杠",
        FanKind::MingGang => "明杠",
        FanKind::PengPengHe => "碰碰和",
        FanKind::SiAnKe => "四暗刻",
        FanKind::SanAnKe => "三暗刻",
        FanKind::ShuangAnKe => "双暗刻",
        FanKind::JianKe => "箭刻",
        FanKind::QuanFengKe => "圈风刻",
        FanKind::MenFengKe => "门风刻",
        FanKind::YaoJiuKe => "幺九刻",
        FanKind::SanFengKe => "三风刻",
        FanKind::ShuangJianKe => "双箭刻",
        FanKind::SanTongKe => "三同刻",
        FanKind::ShuangTongKe => "双同刻",
        FanKind::YiSeSiTongShun => "一色四同顺",
        FanKind::YiSeSanTongShun => "一色三同顺",
        FanKind::YiSeSiJieGao => "一色四节高",
        FanKind::YiSeSanJieGao => "一色三节高",
        FanKind::QingLong => "清龙",
        FanKind::HuaLong => "花龙",
        FanKind::YiSeSiBuGao => "一色四步高",
        FanKind::YiSeSanBuGao => "一色三步高",
        FanKind::SanSeSanTongShun => "三色三同顺",
        FanKind::SanSeSanJieGao => "三色三节高",
        FanKind::SanSeSanBuGao => "三色三步高",
        FanKind::YiBanGao => "一般高",
        FanKind::XiXiangFeng => "喜相逢",
        FanKind::LianLiu => "连六",
        FanKind::LaoShaoFu => "老少副",
        FanKind::QuanDaiWu => "全带五",
        FanKind::QuanDaiYao => "全带幺",
        FanKind::QuanDa => "全大",
        FanKind::QuanZhong => "全中",
        FanKind::QuanXiao => "全小",
        FanKind::DaYuWu => "大于五",
        FanKind::XiaoYuWu => "小于五",
        FanKind::QuanShuangKe => "全双刻",
        FanKind::WuMenQi => "五门齐",
        FanKind::PingHe => "平和",
        FanKind::DuanYao => "断幺",
        FanKind::QueYiMen => "缺一门",
        FanKind::WuZi => "无字",
        FanKind::SiGuiYi => "四归一",
        FanKind::TuiBuDao => "推不倒",
        FanKind::YiSeShuangLongHui => "一色双龙会",
        FanKind::SanSeShuangLongHui => "三色双龙会",
        FanKind::DanDiaoJiang => "单钓将",
        FanKind::BianZhang => "边张",
        FanKind::KanZhang => "坎张",
        FanKind::LianQiDui => "连七对",
        FanKind::QiDui => "七对",
        FanKind::ShiSanYao => "十三幺",
        FanKind::QiXingBuKao => "七星不靠",
        FanKind::QuanBuKao => "全不靠",
        FanKind::ZuHeLong => "组合龙",
        FanKind::MenQianQing => "门前清",
        FanKind::BuQiuRen => "不求人",
        FanKind::ZiMo => "自摸",
        FanKind::HeJueZhang => "和绝张",
        FanKind::QuanQiuRen => "全求人",
        FanKind::WuFanHe => "无番和",
    }
}

/// A recognized pattern and the points it is worth.
#[derive(Clone, Copy, Debug)]
pub struct Fan {
    pub kind: FanKind,
    pub name: &'static str,
    pub value: u32,
}

/// The fan of kind `k` worth `v`.
pub open spec fn mk(k: FanKind, v: u32) -> Fan {
    Fan { kind: k, name: kind_name(k), value: v }
}

pub fn f(k: FanKind, v: u32) -> (r: Fan)
    ensures
        r == mk(k, v),
{
    Fan { kind: k, name: fan_name(k), value: v }
}

#[derive(Clone, Copy, Debug, PartialEq, Eq, Structural)]
pub enum WinMode {
    /// On a discard (the usual case).
    Normal,
    /// Self-drawn.
    Tsumo,
    /// On a discard, the last copy of the tile.
    LastTile,
    /// Self-drawn, the last copy of the tile.
    TsumoLast,
}

/// Everything the patterns of one winning interpretation depend on.
#[derive(Clone, Copy)]
pub struct WinCtx<'a> {
    pub all: &'a Counts,
    pub melds: &'a [Meld],
    pub decomp: &'a Decomp,
    pub round_wind: usize,
    pub seat_wind: usize,
    pub win_tile: usize,
    pub menqing: bool,
    pub single_wait: bool,
    /// Whether the win is self-drawn (a triplet completed on a discard
    /// counts as exposed).
    pub tsumo: bool,
}

/// The values an interpretation is scored on.
pub struct WinModel {
    pub all: Counts,
    pub melds: Seq<Meld>,
    pub decomp: DecompModel,
    pub round_wind: usize,
    pub seat_wind: usize,
    pub win_tile: usize,
    pub menqing: bool,
    pub single_wait: bool,
    pub tsumo: bool,
}

impl<'a> View for WinCtx<'a> {
    type V = WinModel;

    open spec fn view(&self) -> WinModel {
        WinModel {
            all: *self.all,
            melds: self.melds@,
            decomp: self.decomp@,
            round_wind: self.round_wind,
            seat_wind: self.seat_wind,
            win_tile: self.win_tile,
            menqing: self.menqing,
            single_wait: self.single_wait,
            tsumo: self.tsumo,
        }
    }
}


// ---------------------------------------------------------------------------
// Exclusions: patterns absorbed by higher ones
// ---------------------------------------------------------------------------

pub open spec fn has_kind(v: Seq<Fan>, k: FanKind) -> bool {
    exists|i: int| 0 <= i < v.len() && (#[trigger] v[i]).kind == k
}

pub fn has(v: &Vec<Fan>, k: FanKind) -> (r: bool)
    ensures
        r == has_kind(v@, k),
{
    let mut i: usize = 0;
    while i < v.len()
        invariant
            i <= v@.len(),
            forall|j: int| 0 <= j < i ==> (#[trigger] v@[j]).kind != k,
        decreases v@.len() - i,
    {
        if v[i].kind == k {
            assert(v@[i as int].kind == k);
            return true;
        }
        i = i + 1;
    }
    false
}

/// Whether a pattern of kind `k` is absorbed by a higher pattern in `v`.
pub open spec fn excluded(v: Seq<Fan>, k: FanKind) -> bool {
    ((has_kind(v, FanKind::DaSiXi)) && (k == FanKind::SanFengKe || k == FanKind::PengPengHe || k == FanKind::QuanFengKe || k == FanKind::MenFengKe || k == FanKind::YaoJiuKe))
    || ((has_kind(v, FanKind::DaSanYuan)) && (k == FanKind::ShuangJianKe || k == FanKind::JianKe))
    || ((has_kind(v, FanKind::LvYiSe)) && (k == FanKind::HunYiSe))
    || ((has_kind(v, FanKind::JiuLianBaoDeng)) && (k == FanKind::QingYiSe || k == FanKind::YaoJiuKe))
    || ((has_kind(v, FanKind::SiGang)) && (k == FanKind::PengPengHe || k == FanKind::DanDiaoJiang || k == FanKind::SanGang || k == FanKind::ShuangAnGang || k == FanKind::ShuangMingGang || k == FanKind::YiMingYiAnGang || k == FanKind::AnGang || k == FanKind::MingGang))
    || ((has_kind(v, FanKind::SanGang)) && (k == FanKind::ShuangAnGang || k == FanKind::ShuangMingGang || k == FanKind::YiMingYiAnGang || k == FanKind::AnGang || k == FanKind::MingGang))
    || ((has_kind(v, FanKind::LianQiDui)) && (k == FanKind::QingYiSe || k == FanKind::QiDui || k == FanKind::DanDiaoJiang))
    || ((has_kind(v, FanKind::ShiSanYao)) && (k == FanKind::WuMenQi || k == FanKind::DanDiaoJiang))
    || ((has_kind(v, FanKind::QingYaoJiu)) && (k == FanKind::PengPengHe || k == FanKind::QuanDaiYao || k == FanKind::YaoJiuKe || k == FanKind::WuZi || k == FanKind::ShuangTongKe || k == FanKind::SanTongKe))
    || ((has_kind(v, FanKind::HunYaoJiu)) && (k == FanKind::PengPengHe || k == FanKind::QuanDaiYao || k == FanKind::YaoJiuKe))
    || ((has_kind(v, FanKind::ZiYiSe)) && (k == FanKind::PengPengHe || k == FanKind::QuanDaiYao || k == FanKind::YaoJiuKe))
    || ((has_kind(v, FanKind::XiaoSiXi)) && (k == FanKind::SanFengKe || k == FanKind::YaoJiuKe))
    || ((has_kind(v, FanKind::XiaoSanYuan)) && (k == FanKind::ShuangJianKe || k == FanKind::JianKe))
    || ((has_kind(v, FanKind::SiAnKe)) && (k == FanKind::PengPengHe || k == FanKind::SanAnKe || k == FanKind::ShuangAnKe))
    || ((has_kind(v, FanKind::SanAnKe)) && (k == FanKind::ShuangAnKe))
    || ((has_kind(v, FanKind::YiSeShuangLongHui)) && (k == FanKind::QiDui || k == FanKind::QingYiSe || k == FanKind::PingHe || k == FanKind::YiBanGao || k == FanKind::LaoShaoFu || k == FanKind::WuZi))
    || ((has_kind(v, FanKind::YiSeSiTongShun)) && (k == FanKind::YiSeSanJieGao || k == FanKind::YiSeSanTongShun || k == FanKind::QiDui || k == FanKind::SiGuiYi || k == FanKind::YiBanGao))
    || ((has_kind(v, FanKind::YiSeSiJieGao)) && (k == FanKind::YiSeSanTongShun || k == FanKind::PengPengHe))
    || ((has_kind(v, FanKind::QingLong)) && (k == FanKind::LianLiu || k == FanKind::LaoShaoFu))
    || ((has_kind(v, FanKind::YiSeSiBuGao)) && (k == FanKind::LianLiu || k == FanKind::LaoShaoFu))
    || ((has_kind(v, FanKind::QiDui)) && (k == FanKind::DanDiaoJiang))
    || ((has_kind(v, FanKind::QiXingBuKao)) && (k == FanKind::WuMenQi))
    || ((has_kind(v, FanKind::QuanShuangKe)) && (k == FanKind::PengPengHe || k == FanKind::DuanYao))
    || ((has_kind(v, FanKind::QingYiSe)) && (k == FanKind::WuZi))
    || ((has_kind(v, FanKind::YiSeSanTongShun)) && (k == FanKind::YiBanGao))
    || ((has_kind(v, FanKind::QuanDa) || has_kind(v, FanKind::QuanXiao)) && (k == FanKind::WuZi))
    || ((has_kind(v, FanKind::QuanZhong)) && (k == FanKind::DuanYao || k == FanKind::WuZi))
    || ((has_kind(v, FanKind::SanSeShuangLongHui)) && (k == FanKind::PingHe || k == FanKind::WuZi || k == FanKind::XiXiangFeng || k == FanKind::LaoShaoFu))
    || ((has_kind(v, FanKind::QuanDaiWu)) && (k == FanKind::DuanYao || k == FanKind::WuZi))
    || ((has_kind(v, FanKind::QuanBuKao)) && (k == FanKind::WuMenQi))
    || ((has_kind(v, FanKind::TuiBuDao)) && (k == FanKind::QueYiMen))
    || ((has_kind(v, FanKind::SanSeSanTongShun)) && (k == FanKind::XiXiangFeng))
    || ((has_kind(v, FanKind::DaYuWu) || has_kind(v, FanKind::XiaoYuWu)) && (k == FanKind::WuZi))
    || ((has_kind(v, FanKind::DuanYao)) && (k == FanKind::WuZi))
    || ((has_kind(v, FanKind::PingHe)) && (k == FanKind::WuZi))
    || ((has_kind(v, FanKind::QuanQiuRen)) && (k == FanKind::DanDiaoJiang))
}

fn excluded_exec(v: &Vec<Fan>, k: FanKind) -> (r: bool)
    ensures
        r == excluded(v@, k),
{
    if (k == FanKind::SanFengKe || k == FanKind::PengPengHe || k == FanKind::QuanFengKe || k == FanKind::MenFengKe || k == FanKind::YaoJiuKe) && (has(v, FanKind::DaSiXi)) {
        return true;
    }
    if (k == FanKind::ShuangJianKe || k == FanKind::JianKe) && (has(v, FanKind::DaSanYuan)) {
        return true;
    }
    if (k == FanKind::HunYiSe) && (has(v, FanKind::LvYiSe)) {
        return true;
    }
    if (k == FanKind::QingYiSe || k == FanKind::YaoJiuKe) && (has(v, FanKind::JiuLianBaoDeng)) {
        return true;
    }
    if (k == FanKind::PengPengHe || k == FanKind::DanDiaoJiang || k == FanKind::SanGang || k == FanKind::ShuangAnGang || k == FanKind::ShuangMingGang || k == FanKind::YiMingYiAnGang || k == FanKind::AnGang || k == FanKind::MingGang) && (has(v, FanKind::SiGang)) {
        return true;
    }
    if (k == FanKind::ShuangAnGang || k == FanKind::ShuangMingGang || k == FanKind::YiMingYiAnGang || k == FanKind::AnGang || k == FanKind::MingGang) && (has(v, FanKind::SanGang)) {
        return true;
    }
    if (k == FanKind::QingYiSe || k == FanKind::QiDui || k == FanKind::DanDiaoJiang) && (has(v, FanKind::LianQiDui)) {
        return true;
    }
    if (k == FanKind::WuMenQi || k == FanKind::DanDiaoJiang) && (has(v, FanKind::ShiSanYao)) {
        return true;
    }
    if (k == FanKind::PengPengHe || k == FanKind::QuanDaiYao || k == FanKind::YaoJiuKe || k == FanKind::WuZi || k == FanKind::ShuangTongKe || k == FanKind::SanTongKe) && (has(v, FanKind::QingYaoJiu)) {
        return true;
    }
    if (k == FanKind::PengPengHe || k == FanKind::QuanDaiYao || k == FanKind::YaoJiuKe) && (has(v, FanKind::HunYaoJiu)) {
        return true;
    }
    if (k == FanKind::PengPengHe || k == FanKind::QuanDaiYao || k == FanKind::YaoJiuKe) && (has(v, FanKind::ZiYiSe)) {
        return true;
    }
    if (k == FanKind::SanFengKe || k == FanKind::YaoJiuKe) && (has(v, FanKind::XiaoSiXi)) {
        return true;
    }
    if (k == FanKind::ShuangJianKe || k == FanKind::JianKe) && (has(v, FanKind::XiaoSanYuan)) {
        return true;
    }
    if (k == FanKind::PengPengHe || k == FanKind::SanAnKe || k == FanKind::ShuangAnKe) && (has(v, FanKind::SiAnKe)) {
        return true;
    }
    if (k == FanKind::ShuangAnKe) && (has(v, FanKind::SanAnKe)) {
        return true;
    }
    if (k == FanKind::QiDui || k == FanKind::QingYiSe || k == FanKind::PingHe || k == FanKind::YiBanGao || k == FanKind::LaoShaoFu || k == FanKind::WuZi) && (has(v, FanKind::YiSeShuangLongHui)) {
        return true;
    }
    if (k == FanKind::YiSeSanJieGao || k == FanKind::YiSeSanTongShun || k == FanKind::QiDui || k == FanKind::SiGuiYi || k == FanKind::YiBanGao) && (has(v, FanKind::YiSeSiTongShun)) {
        return true;
    }
    if (k == FanKind::YiSeSanTongShun || k == FanKind::PengPengHe) && (has(v, FanKind::YiSeSiJieGao)) {
        return true;
    }
    if (k == FanKind::LianLiu || k == FanKind::LaoShaoFu) && (has(v, FanKind::QingLong)) {
        return true;
    }
    if (k == FanKind::LianLiu || k == FanKind::LaoShaoFu) && (has(v, FanKind::YiSeSiBuGao)) {
        return true;
    }
    if (k == FanKind::DanDiaoJiang) && (has(v, FanKind::QiDui)) {
        return true;
    }
    if (k == FanKind::WuMenQi) && (has(v, FanKind::QiXingBuKao)) {
        return true;
    }
    if (k == FanKind::PengPengHe || k == FanKind::DuanYao) && (has(v, FanKind::QuanShuangKe)) {
        return true;
    }
    if (k == FanKind::WuZi) && (has(v, FanKind::QingYiSe)) {
        return true;
    }
    if (k == FanKind::YiBanGao) && (has(v, FanKind::YiSeSanTongShun)) {
        return true;
    }
    if (k == FanKind::WuZi) && (has(v, FanKind::QuanDa) || has(v, FanKind::QuanXiao)) {
        return true;
    }
    if (k == FanKind::DuanYao || k == FanKind::WuZi) && (has(v, FanKind::QuanZhong)) {
        return true;
    }
    if (k == FanKind::PingHe || k == FanKind::WuZi || k == FanKind::XiXiangFeng || k == FanKind::LaoShaoFu) && (has(v, FanKind::SanSeShuangLongHui)) {
        return true;
    }
    if (k == FanKind::DuanYao || k == FanKind::WuZi) && (has(v, FanKind::QuanDaiWu)) {
        return true;
    }
    if (k == FanKind::WuMenQi) && (has(v, FanKind::QuanBuKao)) {
        return true;
    }
    if (k == FanKind::QueYiMen) && (has(v, FanKind::TuiBuDao)) {
        return true;
    }
    if (k == FanKind::XiXiangFeng) && (has(v, FanKind::SanSeSanTongShun)) {
        return true;
    }
    if (k == FanKind::WuZi) && (has(v, FanKind::DaYuWu) || has(v, FanKind::XiaoYuWu)) {
        return true;
    }
    if (k == FanKind::WuZi) && (has(v, FanKind::DuanYao)) {
        return true;
    }
    if (k == FanKind::WuZi) && (has(v, FanKind::PingHe)) {
        return true;
    }
    if (k == FanKind::DanDiaoJiang) && (has(v, FanKind::QuanQiuRen)) {
        return true;
    }
    false
}

/// The fans of `v` not absorbed by a pattern in `all`, in order.
pub open spec fn keep_fans(v: Seq<Fan>, all: Seq<Fan>) -> Seq<Fan>
    decreases v.len(),
{
    if v.len() == 0 {
        Seq::empty()
    } else {
        keep_fans(v.drop_last(), all) + if excluded(all, v.last().kind) {
            Seq::empty()
        } else {
            seq![v.last()]
        }
    }
}

/// `v` without the patterns that its higher patterns absorb.
pub open spec fn exclusions(v: Seq<Fan>) -> Seq<Fan> {
    keep_fans(v, v)
}

fn apply_exclusions(v: &Vec<Fan>) -> (r: Vec<Fan>)
    ensures
        r@ == exclusions(v@),
{
    let mut r: Vec<Fan> = Vec::new();
    let mut i: usize = 0;
    while i < v.len()
        invariant
            i <= v@.len(),
            r@ == keep_fans(v@.subrange(0, i as int), v@),
        decreases v@.len() - i,
    {
        assert(v@.subrange(0, i + 1).drop_last() =~= v@.subrange(0, i as int));
        let x = v[i];
        if !excluded_exec(v, x.kind) {
            r.push(x);
        }
        i = i + 1;
        assert(r@ =~= keep_fans(v@.subrange(0, i as int), v@));
    }
    assert(v@.subrange(0, v@.len() as int) =~= v@);
    r
}


// ---------------------------------------------------------------------------
// Collecting and scoring
// ---------------------------------------------------------------------------

/// The shape patterns of an interpretation, exclusions applied.
pub open spec fn spec_collect(ctx: WinModel) -> Seq<Fan> {
    match ctx.decomp.special {
        Some(sp) => exclusions(special::special_raw(ctx, sp)),
        None => exclusions(standard::standard_raw(ctx)),
    }
}

/// What `collect` and `score` need of an interpretation: a standard one has
/// a pair. A winning hand has four sets; the bound of 500 sets is far above
/// that and only keeps the counts and point totals (`u32`) within range, so
/// that the sums can be proved free of overflow.
pub open spec fn ctx_ok(ctx: WinModel) -> bool {
    &&& ctx.decomp.special is None ==> ctx.decomp.pair is Some
    &&& ctx.decomp.sets.len() <= 500
}

/// Collects the shape patterns of an interpretation.
pub fn collect(ctx: &WinCtx) -> (v: Vec<Fan>)
    requires
        ctx_ok(ctx@),
    ensures
        v@ == spec_collect(ctx@),
{
    match ctx.decomp.special {
        Some(sp) => {
            let raw = special::special_part(ctx, sp);
            apply_exclusions(&raw)
        },
        None => {
            let raw = standard::standard_part(ctx);
            apply_exclusions(&raw)
        },
    }
}

/// Sum of the values of some fans.
pub open spec fn fan_sum(v: Seq<Fan>) -> int
    decreases v.len(),
{
    if v.len() == 0 {
        0
    } else {
        fan_sum(v.drop_last()) + v.last().value
    }
}

fn sum_values(v: &Vec<Fan>) -> (r: u32)
    requires
        fan_sum(v@) <= u32::MAX,
    ensures
        r == fan_sum(v@),
{
    let mut r: u32 = 0;
    let mut i: usize = 0;
    while i < v.len()
        invariant
            i <= v@.len(),
            fan_sum(v@) <= u32::MAX,
            r == fan_sum(v@.subrange(0, i as int)),
        decreases v@.len() - i,
    {
        assert(v@.subrange(0, i + 1).drop_last() =~= v@.subrange(0, i as int));
        proof {
            bounds::lemma_fan_sum_prefix(v@, i + 1);
        }
        r = r + v[i].value;
        i = i + 1;
    }
    assert(v@.subrange(0, v@.len() as int) =~= v@);
    r
}

/// Patterns that imply a concealed hand, so that concealed-hand fans do not
/// apply.
pub open spec fn implies_concealed(v: Seq<Fan>) -> bool {
    has_kind(v, FanKind::QiDui) || has_kind(v, FanKind::LianQiDui) || has_kind(v, FanKind::ShiSanYao)
        || has_kind(v, FanKind::JiuLianBaoDeng) || has_kind(v, FanKind::QiXingBuKao) || has_kind(
        v,
        FanKind::QuanBuKao,
    ) || has_kind(v, FanKind::SiAnKe)
}

pub open spec fn is_self_drawn(mode: WinMode) -> bool {
    mode == WinMode::Tsumo || mode == WinMode::TsumoLast
}

/// The fans of the way of winning: concealed hand on a discard; fully
/// concealed self-draw (only self-drawn when the hand is open or its shape
/// already implies concealment); last tile.
pub open spec fn mode_fans(mode: WinMode, menqing: bool, implied: bool) -> Seq<Fan> {
    let drawn = if menqing && !implied {
        seq![mk(FanKind::BuQiuRen, 4)]
    } else {
        seq![mk(FanKind::ZiMo, 1)]
    };
    let concealed = standard::opt(menqing && !implied, mk(FanKind::MenQianQing, 2));
    match mode {
        WinMode::Normal => concealed,
        WinMode::Tsumo => drawn,
        WinMode::LastTile => concealed + seq![mk(FanKind::HeJueZhang, 4)],
        WinMode::TsumoLast => drawn + seq![mk(FanKind::HeJueZhang, 4)],
    }
}

/// All melded: four exposed melds.
pub open spec fn all_melded(melds: Seq<Meld>) -> bool {
    melds.len() == 4 && forall|i: int| 0 <= i < 4 ==> (#[trigger] melds[i]).open
}

/// `v` without single-wait fans.
pub open spec fn without_single_wait(v: Seq<Fan>) -> Seq<Fan>
    decreases v.len(),
{
    if v.len() == 0 {
        Seq::empty()
    } else {
        without_single_wait(v.drop_last()) + if v.last().kind == FanKind::DanDiaoJiang {
            Seq::empty()
        } else {
            seq![v.last()]
        }
    }
}

/// Total points and the full list of fans for winning this way: shape
/// patterns (with the triplet completed by the winning tile concealed only
/// when self-drawn), then the fans of the way of winning; all melded on a
/// discard replaces single wait; a hand worth nothing, open and won on a
/// discard, scores the chicken hand's 8.
pub open spec fn spec_score(ctx: WinModel, mode: WinMode) -> (u32, Seq<Fan>) {
    let c2 = WinModel { tsumo: is_self_drawn(mode), ..ctx };
    let fans0 = spec_collect(c2);
    let qqr = mode == WinMode::Normal && all_melded(ctx.melds);
    let fans1 = if qqr {
        without_single_wait(fans0)
    } else {
        fans0
    };
    let extras = mode_fans(mode, ctx.menqing, implies_concealed(fans0)) + standard::opt(
        qqr,
        mk(FanKind::QuanQiuRen, 6),
    );
    let base = fan_sum(fans1);
    let total0 = base + fan_sum(extras);
    let chicken = mode == WinMode::Normal && base == 0 && !ctx.menqing && total0 == 0;
    let total = if chicken {
        8
    } else {
        total0
    };
    (total as u32, fans1 + extras + standard::opt(chicken, mk(FanKind::WuFanHe, 8)))
}

fn remove_single_wait(v: &Vec<Fan>) -> (r: Vec<Fan>)
    ensures
        r@ == without_single_wait(v@),
{
    let mut r: Vec<Fan> = Vec::new();
    let mut i: usize = 0;
    while i < v.len()
        invariant
            i <= v@.len(),
            r@ == without_single_wait(v@.subrange(0, i as int)),
        decreases v@.len() - i,
    {
        assert(v@.subrange(0, i + 1).drop_last() =~= v@.subrange(0, i as int));
        if v[i].kind != FanKind::DanDiaoJiang {
            r.push(v[i]);
        }
        i = i + 1;
        assert(r@ =~= without_single_wait(v@.subrange(0, i as int)));
    }
    assert(v@.subrange(0, v@.len() as int) =~= v@);
    r
}

fn all_exposed(melds: &[Meld]) -> (r: bool)
    ensures
        r == all_melded(melds@),
{
    if melds.len() != 4 {
        return false;
    }
    let mut i: usize = 0;
    while i < 4
        invariant
            i <= 4,
            melds@.len() == 4,
            forall|j: int| 0 <= j < i ==> (#[trigger] melds@[j]).open,
        decreases 4 - i,
    {
        if !melds[i].open {
            return false;
        }
        i = i + 1;
    }
    true
}

/// Total points and fan list of an interpretation won in the way `mode`.
pub fn score(ctx: &WinCtx, mode: WinMode) -> (r: (u32, Vec<Fan>))
    requires
        ctx_ok(ctx@),
    ensures
        r.0 == spec_score(ctx@, mode).0,
        r.1@ == spec_score(ctx@, mode).1,
{
    let mut c2 = *ctx;
    c2.tsumo = mode == WinMode::Tsumo || mode == WinMode::TsumoLast;
    assert(c2@ == WinModel { tsumo: is_self_drawn(mode), ..ctx@ });
    let fans0 = collect(&c2);
    let menqing = ctx.menqing;
    let implied = has(&fans0, FanKind::QiDui) || has(&fans0, FanKind::LianQiDui) || has(
        &fans0,
        FanKind::ShiSanYao,
    ) || has(&fans0, FanKind::JiuLianBaoDeng) || has(&fans0, FanKind::QiXingBuKao) || has(
        &fans0,
        FanKind::QuanBuKao,
    ) || has(&fans0, FanKind::SiAnKe);
    let mut extra: Vec<Fan> = Vec::new();
    match mode {
        WinMode::Normal => {
            if menqing && !implied {
                extra.push(f(FanKind::MenQianQing, 2));
            }
        },
        WinMode::Tsumo => {
            if menqing && !implied {
                extra.push(f(FanKind::BuQiuRen, 4));
            } else {
                extra.push(f(FanKind::ZiMo, 1));
            }
        },
        WinMode::LastTile => {
            if menqing && !implied {
                extra.push(f(FanKind::MenQianQing, 2));
            }
            extra.push(f(FanKind::HeJueZhang, 4));
        },
        WinMode::TsumoLast => {
            if menqing && !implied {
                extra.push(f(FanKind::BuQiuRen, 4));
            } else {
                extra.push(f(FanKind::ZiMo, 1));
            }
            extra.push(f(FanKind::HeJueZhang, 4));
        },
    }
    assert(extra@ =~= mode_fans(mode, menqing, implies_concealed(fans0@)));
    let qqr = mode == WinMode::Normal && all_exposed(ctx.melds);
    let fans = if qqr {
        extra.push(f(FanKind::QuanQiuRen, 6));
        remove_single_wait(&fans0)
    } else {
        fans0
    };
    assert(extra@ =~= mode_fans(mode, menqing, implies_concealed(fans0@)) + standard::opt(
        qqr,
        mk(FanKind::QuanQiuRen, 6),
    ));
    proof {
        bounds::lemma_score_bounds(ctx@, mode);
    }
    let base = sum_values(&fans);
    let extra_sum = sum_values(&extra);
    let mut total = base + extra_sum;
    if mode == WinMode::Normal && base == 0 && !menqing && total == 0 {
        total = 8;
        extra.push(f(FanKind::WuFanHe, 8));
    }
    let mut out = fans;
    out.append(&mut extra);
    (total, out)
}


pub proof fn lemma_fan_sum_concat(a: Seq<Fan>, b: Seq<Fan>)
    ensures
        fan_sum(a + b) == fan_sum(a) + fan_sum(b),
    decreases b.len(),
{
    if b.len() == 0 {
        assert(a + b =~= a);
    } else {
        assert((a + b).drop_last() =~= a + b.drop_last());
        lemma_fan_sum_concat(a, b.drop_last());
    }
}

/// The total of a win is the sum of the values of the fans listed for it
/// (the chicken hand's 8 included).
pub proof fn lemma_score_is_fan_sum(ctx: WinModel, mode: WinMode)
    requires
        ctx_ok(ctx),
    ensures
        spec_score(ctx, mode).0 == fan_sum(spec_score(ctx, mode).1),
{
    let c2 = WinModel { tsumo: is_self_drawn(mode), ..ctx };
    let fans0 = spec_collect(c2);
    let qqr = mode == WinMode::Normal && all_melded(ctx.melds);
    let fans1 = if qqr {
        without_single_wait(fans0)
    } else {
        fans0
    };
    let extras = mode_fans(mode, ctx.menqing, implies_concealed(fans0)) + standard::opt(
        qqr,
        mk(FanKind::QuanQiuRen, 6),
    );
    bounds::lemma_score_bounds(ctx, mode);
    bounds::lemma_fan_sum_nonneg(fans1);
    bounds::lemma_fan_sum_nonneg(extras);
    let base = fan_sum(fans1);
    let total0 = base + fan_sum(extras);
    let chicken = mode == WinMode::Normal && base == 0 && !ctx.menqing && total0 == 0;
    let w = standard::opt(chicken, mk(FanKind::WuFanHe, 8));
    lemma_fan_sum_concat(fans1, extras);
    lemma_fan_sum_concat(fans1 + extras, w);
    if chicken {
        assert(fan_sum(w) == 8) by {
            assert(w.drop_last() =~= Seq::<Fan>::empty());
        }
    } else {
        assert(w =~= Seq::<Fan>::empty());
    }
}

pub proof fn lemma_fan_sum_one(x: Fan)
    ensures
        fan_sum(seq![x]) == x.value,
{
    reveal_with_fuel(fan_sum, 2);
}

// ---------------------------------------------------------------------------
// One-suit hands
// ---------------------------------------------------------------------------

/// The hand holds tiles, all of suit `s`, and no honor.
pub open spec fn one_suit(all: Counts, s: int) -> bool {
    &&& 0 <= s < 3
    &&& forall|t: int| 0 <= t < 34 && #[trigger] all@[t] > 0 ==> s * 9 <= t < s * 9 + 9
    &&& exists|t: int| 0 <= t < 34 && #[trigger] all@[t] > 0
}

/// The hand's suited tiles are all of suit `s`, and it holds some of them
/// and some honor.
pub open spec fn one_suit_and_honors(all: Counts, s: int) -> bool {
    &&& 0 <= s < 3
    &&& forall|t: int| 0 <= t < 27 && #[trigger] all@[t] > 0 ==> s * 9 <= t < s * 9 + 9
    &&& exists|t: int| s * 9 <= t < s * 9 + 9 && #[trigger] all@[t] > 0
    &&& exists|t: int| 27 <= t < 34 && #[trigger] all@[t] > 0
}

/// A pattern of `v` that nothing in `all` absorbs is kept.
proof fn lemma_kept(v: Seq<Fan>, all: Seq<Fan>, i: int)
    requires
        0 <= i < v.len(),
        !excluded(all, v[i].kind),
    ensures
        keep_fans(v, all).contains(v[i]),
    decreases v.len(),
{
    let w = v.drop_last();
    let k = keep_fans(w, all);
    let b = if excluded(all, v.last().kind) {
        Seq::empty()
    } else {
        seq![v.last()]
    };
    assert(keep_fans(v, all) == k + b);
    if i == v.len() - 1 {
        assert((k + b)[k.len() as int] == v[i]);
    } else {
        assert(w[i] == v[i]);
        lemma_kept(w, all, i);
        let j = choose|j: int| 0 <= j < k.len() && k[j] == v[i];
        assert((k + b)[j] == v[i]);
    }
}

/// A pattern of the raw list that no rule lets anything absorb is listed.
proof fn lemma_kept_kind(v: Seq<Fan>, x: FanKind)
    requires
        has_kind(v, x),
        x == FanKind::JiuLianBaoDeng || x == FanKind::LianQiDui || x == FanKind::YiSeShuangLongHui
            || x == FanKind::LvYiSe,
    ensures
        has_kind(exclusions(v), x),
{
    let i = choose|i: int| 0 <= i < v.len() && (#[trigger] v[i]).kind == x;
    lemma_kept(v, v, i);
    let e = exclusions(v);
    let j = choose|j: int| 0 <= j < e.len() && e[j] == v[i];
    assert(e[j].kind == x);
}

/// The flush pattern of a standard hand stands in its raw list right after
/// the big honor patterns.
#[verifier::rlimit(50)]
proof fn lemma_flush_in_raw(ctx: WinModel)
    requires
        facts::suit_count(ctx.all) == 1,
    ensures
        standard::standard_raw(ctx)[standard::big_honor_fans(ctx).len() as int] == standard::flush_fans(
            1,
            facts::honor_held(ctx.all),
        )[0],
{
    let all = ctx.all;
    let a = standard::big_honor_fans(ctx);
    let fl = standard::flush_fans(1, facts::honor_held(all));
    let i = a.len() as int;
    let x1 = a + fl;
    assert(x1[i] == fl[0]);
    let x2 = x1 + standard::opt(facts::all_pass(all, crate::plan::Filter::Green), mk(FanKind::LvYiSe, 88));
    assert(x2[i] == fl[0]);
    let x3 = x2 + standard::terminal_fans(all);
    assert(x3[i] == fl[0]);
    let hc = x3 + standard::opt(standard::nine_gates(all), mk(FanKind::JiuLianBaoDeng, 88));
    assert(hc[i] == fl[0]);
    assert(hc == standard::honor_color_fans(ctx));
    let y1 = hc + standard::triplet_fans(ctx);
    assert(y1[i] == fl[0]);
    let y2 = y1 + standard::run_fans(ctx);
    assert(y2[i] == fl[0]);
    let y3 = y2 + standard::misc_fans(ctx);
    assert(y3[i] == fl[0]);
    let y4 = y3 + standard::wait_fans(ctx, ctx.decomp.pair->0, false);
    assert(y4[i] == fl[0]);
    assert(y4 == standard::standard_raw(ctx));
}

/// A standard hand of one suit without honors scores the full flush
/// 清一色 24 (unless 九莲宝灯 or 一色双龙会, which hold it, are listed); one
/// of one suit with honors scores the half flush 混一色 6 (unless 绿一色,
/// which holds it, is listed).
#[verifier::rlimit(60)]
pub proof fn lemma_one_suit_flush(ctx: WinModel, s: int)
    requires
        ctx.decomp.special is None,
    ensures
        one_suit(ctx.all, s) ==> {
            ||| spec_collect(ctx).contains(mk(FanKind::QingYiSe, 24))
            ||| has_kind(spec_collect(ctx), FanKind::JiuLianBaoDeng)
            ||| has_kind(spec_collect(ctx), FanKind::LianQiDui)
            ||| has_kind(spec_collect(ctx), FanKind::YiSeShuangLongHui)
        },
        one_suit_and_honors(ctx.all, s) ==> {
            ||| spec_collect(ctx).contains(mk(FanKind::HunYiSe, 6))
            ||| has_kind(spec_collect(ctx), FanKind::LvYiSe)
        },
        one_suit(ctx.all, s) ==> !has_kind(spec_collect(ctx), FanKind::HunYiSe),
        one_suit_and_honors(ctx.all, s) ==> !has_kind(spec_collect(ctx), FanKind::QingYiSe),
{
    lemma_one_suit_flush_only(ctx, s);
    let all = ctx.all;
    let raw = standard::standard_raw(ctx);
    let i = standard::big_honor_fans(ctx).len() as int;
    assert(spec_collect(ctx) == exclusions(raw));
    if one_suit(all, s) {
        lemma_one_suit_counts(all, s);
        lemma_flush_in_raw(ctx);
        assert(raw[i] == mk(FanKind::QingYiSe, 24));
        if excluded(raw, FanKind::QingYiSe) {
            if has_kind(raw, FanKind::JiuLianBaoDeng) {
                lemma_kept_kind(raw, FanKind::JiuLianBaoDeng);
            } else if has_kind(raw, FanKind::LianQiDui) {
                lemma_kept_kind(raw, FanKind::LianQiDui);
            } else {
                lemma_kept_kind(raw, FanKind::YiSeShuangLongHui);
            }
        } else {
            lemma_kept(raw, raw, i);
        }
    }
    if one_suit_and_honors(all, s) {
        lemma_one_suit_counts(all, s);
        lemma_flush_in_raw(ctx);
        assert(raw[i] == mk(FanKind::HunYiSe, 6));
        if excluded(raw, FanKind::HunYiSe) {
            lemma_kept_kind(raw, FanKind::LvYiSe);
        } else {
            lemma_kept(raw, raw, i);
        }
    }
}

/// What the exclusions keep comes from the list.
proof fn lemma_kept_from(v: Seq<Fan>, all: Seq<Fan>, j: int)
    requires
        0 <= j < keep_fans(v, all).len(),
    ensures
        v.contains(keep_fans(v, all)[j]),
    decreases v.len(),
{
    let w = v.drop_last();
    let k = keep_fans(w, all);
    let b = if excluded(all, v.last().kind) {
        Seq::empty()
    } else {
        seq![v.last()]
    };
    assert(keep_fans(v, all) == k + b);
    if j < k.len() {
        assert((k + b)[j] == k[j]);
        lemma_kept_from(w, all, j);
        let i = choose|i: int| 0 <= i < w.len() && w[i] == k[j];
        assert(v[i] == w[i]);
    } else {
        assert((k + b)[j] == v.last());
        assert(v[v.len() - 1] == v.last());
    }
}

/// A one-suit hand lists only its own flush.
proof fn lemma_one_suit_flush_only(ctx: WinModel, s: int)
    requires
        ctx.decomp.special is None,
    ensures
        one_suit(ctx.all, s) ==> !has_kind(spec_collect(ctx), FanKind::HunYiSe),
        one_suit_and_honors(ctx.all, s) ==> !has_kind(spec_collect(ctx), FanKind::QingYiSe),
{
    let raw = standard::standard_raw(ctx);
    let fl = standard::flush_fans(facts::suit_count(ctx.all), facts::honor_held(ctx.all));
    kinds::lemma_flush_only_there(ctx);
    let e = spec_collect(ctx);
    assert(e == exclusions(raw));
    if one_suit(ctx.all, s) {
        lemma_one_suit_counts(ctx.all, s);
        assert(fl == seq![mk(FanKind::QingYiSe, 24)]);
        if has_kind(e, FanKind::HunYiSe) {
            let j = choose|j: int| 0 <= j < e.len() && (#[trigger] e[j]).kind == FanKind::HunYiSe;
            lemma_kept_from(raw, raw, j);
            let i = choose|i: int| 0 <= i < raw.len() && raw[i] == e[j];
            assert(fl.contains(raw[i]));
            let k = choose|k: int| 0 <= k < fl.len() && fl[k] == raw[i];
            assert(k == 0);
        }
    }
    if one_suit_and_honors(ctx.all, s) {
        lemma_one_suit_counts(ctx.all, s);
        assert(fl == seq![mk(FanKind::HunYiSe, 6)]);
        if has_kind(e, FanKind::QingYiSe) {
            let j = choose|j: int| 0 <= j < e.len() && (#[trigger] e[j]).kind == FanKind::QingYiSe;
            lemma_kept_from(raw, raw, j);
            let i = choose|i: int| 0 <= i < raw.len() && raw[i] == e[j];
            assert(fl.contains(raw[i]));
            let k = choose|k: int| 0 <= k < fl.len() && fl[k] == raw[i];
            assert(k == 0);
        }
    }
}

proof fn lemma_one_suit_counts(all: Counts, s: int)
    requires
        one_suit(all, s) || one_suit_and_honors(all, s),
    ensures
        facts::suit_count(all) == 1,
        one_suit(all, s) ==> !facts::honor_held(all),
        one_suit_and_honors(all, s) ==> facts::honor_held(all),
{
    assert forall|q: int| 0 <= q < 3 && q != s implies !facts::suit_held(all, q) by {
        if facts::suit_held(all, q) {
            let t = choose|t: int| q * 9 <= t <= q * 9 + 8 && 0 <= t < 34 && #[trigger] all@[t] > 0;
        }
    }
    if one_suit(all, s) {
        let w = choose|t: int| 0 <= t < 34 && #[trigger] all@[t] > 0;
        assert(s * 9 <= w < s * 9 + 9);
        assert(facts::suit_held(all, s));
        if facts::honor_held(all) {
            let t = choose|t: int| 27 <= t <= 33 && 0 <= t < 34 && #[trigger] all@[t] > 0;
        }
    } else {
        let w = choose|t: int| s * 9 <= t < s * 9 + 9 && #[trigger] all@[t] > 0;
        let z = choose|t: int| 27 <= t < 34 && #[trigger] all@[t] > 0;
        assert(facts::suit_held(all, s));
        assert(facts::honor_held(all));
    }
}

/// A self-drawn win of a hand that is not concealed (it has an exposed
/// meld) scores its shape patterns and then only 自摸 1 (and 和绝张 4 on the
/// last copy): never 不求人 nor 门前清, whatever its shape.
pub proof fn lemma_open_self_draw(ctx: WinModel)
    requires
        ctx_ok(ctx),
        !ctx.menqing,
    ensures
        ({
            let shape = spec_collect(WinModel { tsumo: true, ..ctx });
            &&& spec_score(ctx, WinMode::Tsumo).1 == shape + seq![mk(FanKind::ZiMo, 1)]
            &&& spec_score(ctx, WinMode::Tsumo).0 == fan_sum(shape) + 1
            &&& spec_score(ctx, WinMode::TsumoLast).1 == shape + seq![
                mk(FanKind::ZiMo, 1),
                mk(FanKind::HeJueZhang, 4),
            ]
            &&& spec_score(ctx, WinMode::TsumoLast).0 == fan_sum(shape) + 5
        }),
{
    bounds::lemma_score_bounds(ctx, WinMode::Tsumo);
    bounds::lemma_score_bounds(ctx, WinMode::TsumoLast);
    let shape = spec_collect(WinModel { tsumo: true, ..ctx });
    bounds::lemma_fan_sum_nonneg(shape);
    let none = standard::opt(false, mk(FanKind::QuanQiuRen, 6));
    assert(none =~= Seq::<Fan>::empty());
    let z = seq![mk(FanKind::ZiMo, 1)];
    let zl = seq![mk(FanKind::ZiMo, 1), mk(FanKind::HeJueZhang, 4)];
    let last = seq![mk(FanKind::HeJueZhang, 4)];
    assert(zl =~= z + last);
    lemma_fan_sum_one(mk(FanKind::ZiMo, 1));
    lemma_fan_sum_one(mk(FanKind::HeJueZhang, 4));
    lemma_fan_sum_concat(z, last);
    assert(spec_score(ctx, WinMode::Tsumo).1 =~= shape + z);
    assert(spec_score(ctx, WinMode::TsumoLast).1 =~= shape + zl);
    lemma_fan_sum_concat(shape, z);
    lemma_fan_sum_concat(shape, zl);
}

/// Self-drawing the last copy scores 4 more than an ordinary self-draw.
pub proof fn lemma_last_tile_drawn(ctx: WinModel)
    requires
        ctx_ok(ctx),
    ensures
        spec_score(ctx, WinMode::TsumoLast).0 == spec_score(ctx, WinMode::Tsumo).0 + 4,
{
    bounds::lemma_score_bounds(ctx, WinMode::Tsumo);
    bounds::lemma_score_bounds(ctx, WinMode::TsumoLast);
    let f1 = spec_collect(WinModel { tsumo: true, ..ctx });
    bounds::lemma_fan_sum_nonneg(f1);
    let i1 = implies_concealed(f1);
    let drawn = if ctx.menqing && !i1 {
        seq![mk(FanKind::BuQiuRen, 4)]
    } else {
        seq![mk(FanKind::ZiMo, 1)]
    };
    let last = seq![mk(FanKind::HeJueZhang, 4)];
    let none = standard::opt(false, mk(FanKind::QuanQiuRen, 6));
    assert(none =~= Seq::<Fan>::empty());
    lemma_fan_sum_one(mk(FanKind::HeJueZhang, 4));
    lemma_fan_sum_concat(drawn, last);
    assert(mode_fans(WinMode::TsumoLast, ctx.menqing, i1) + none =~= drawn + last);
    assert(mode_fans(WinMode::Tsumo, ctx.menqing, i1) + none =~= drawn);
    lemma_fan_sum_one(mk(FanKind::BuQiuRen, 4));
    lemma_fan_sum_one(mk(FanKind::ZiMo, 1));
}

/// Winning on a discard of the last copy scores 4 more than an ordinary
/// discard, unless the hand is fully melded or the chicken hand.
pub proof fn lemma_last_tile_discard(ctx: WinModel)
    requires
        ctx_ok(ctx),
        !all_melded(ctx.melds),
        ctx.menqing || fan_sum(spec_collect(WinModel { tsumo: false, ..ctx })) != 0,
    ensures
        spec_score(ctx, WinMode::LastTile).0 == spec_score(ctx, WinMode::Normal).0 + 4,
{
    bounds::lemma_score_bounds(ctx, WinMode::Normal);
    bounds::lemma_score_bounds(ctx, WinMode::LastTile);
    let f0 = spec_collect(WinModel { tsumo: false, ..ctx });
    bounds::lemma_fan_sum_nonneg(f0);
    let i0 = implies_concealed(f0);
    let concealed = standard::opt(ctx.menqing && !i0, mk(FanKind::MenQianQing, 2));
    let last = seq![mk(FanKind::HeJueZhang, 4)];
    let none = standard::opt(false, mk(FanKind::QuanQiuRen, 6));
    assert(none =~= Seq::<Fan>::empty());
    lemma_fan_sum_one(mk(FanKind::HeJueZhang, 4));
    lemma_fan_sum_concat(concealed, last);
    assert(mode_fans(WinMode::LastTile, ctx.menqing, i0) + none =~= concealed + last);
    assert(mode_fans(WinMode::Normal, ctx.menqing, i0) + none =~= concealed);
    bounds::lemma_fan_sum_nonneg(concealed);
}

} // verus!
