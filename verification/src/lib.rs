//! Activity recording at a desk: the session clock and span bookkeeping of the
//! collector, the joining of spans into blocks of focused work with their
//! daily and per-app totals, and the text that the reading commands print.

pub mod text;
pub mod clock;
pub mod tracker;
pub mod focus;
pub mod span;
pub mod report;
pub mod summary;
pub mod lines;

use vstd::prelude::*;

verus! {

/// The usage text of the command line.
pub const HELP: &'static str = "\
desklog — 사용자가 무엇을 하고 있는지 기록하는 수집기

사용법:
  desklog <명령> [인자]

명령:
  watch              상주하며 5초마다 기록한다. 재부팅하면 죽으니 다시 띄운다
  now                현재 상태를 JSON 한 줄로 출력한다 (로봇·스크립트가 호출)
  live               현재 상태를 1초마다 갱신한다
  log [개수]         원시 기록을 훑어본다 (기본 40). 끊긴 구간을 표시한다
  top [일수] [앱]    앱별 시간·시간대·창 제목 요약 (기본 7일, 앱을 주면 그 앱만)
  label yes|no       직전 개입이 먹혔는지 기록한다 (학습 라벨)
  export             학습용 CSV를 표준출력으로
  doctor             잘 돌고 있는지, 무엇을 못 읽고 있는지 진단한다
  focus [일수]       몰입 구간 — 한 앱에 오래, 입력을 하면서 머문 시간 (기본 7일)

옵션:
  -h, --help         이 도움말
  -v, --version      판 번호

상주시키기:
  nohup desklog watch > /tmp/desklog.log 2>&1 &

기록하는 것:
  활성 앱 이름, 창 제목, 마지막 입력 이후 경과 초, 지역시 '시',
  활동 세션 지속, 현재 앱 연속 사용 시간.

기록하지 않는 것:
  입력 내용, 화면 이미지, 네트워크 전송. 입력은 빈도만 세고 무엇을 눌렀는지 보지 않는다.

저장 위치:
  ~/.desklog.db (sqlite). 5초에 한 줄, 하루 1MB 미만.
";

} // verus!
